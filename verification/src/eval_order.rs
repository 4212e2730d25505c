//! Evaluation order of the modules of a document and what each module
//! imports: modules are evaluated in dependency order (Kahn's algorithm,
//! dependency-free roots first); modules caught in a `use` cycle follow in
//! index order.
use vstd::prelude::*;
use crate::text::str_equal;

verus! {

/// A parsed `use` declaration: module name and optional specific item.
#[derive(Debug, Clone, PartialEq, Eq)]
pub struct UseDecl {
    pub module: String,
    pub item: Option<String>,
}

/// Source material for a single module (block).
#[derive(Debug, Clone)]
pub struct ModuleSource {
    /// Module name (from heading text, normalized).
    pub name: String,
    /// Raw text content of all text blocks in this module, joined.
    pub text: String,
    /// True for the root module, whose exports every other module sees.
    pub is_root: bool,
}

// ---------------------------------------------------------------------------
// Dependency graph
// ---------------------------------------------------------------------------

/// Index of the last module called `name`.
pub open spec fn module_named(names: Seq<Seq<char>>, name: Seq<char>) -> Option<int>
    decreases names.len(),
{
    if names.len() == 0 {
        None
    } else if names.last() == name {
        Some(names.len() - 1)
    } else {
        module_named(names.drop_last(), name)
    }
}

/// Dependencies of module `v` named by its declarations `ds`: one entry
/// per declaration naming another existing module.
pub open spec fn deps_of(names: Seq<Seq<char>>, ds: Seq<Seq<char>>, v: int) -> Seq<int>
    decreases ds.len(),
{
    if ds.len() == 0 {
        Seq::empty()
    } else {
        let rest = deps_of(names, ds.drop_last(), v);
        match module_named(names, ds.last()) {
            Some(d) => if d != v {
                rest.push(d)
            } else {
                rest
            },
            None => rest,
        }
    }
}

/// Number of occurrences of `x` in `s`.
pub open spec fn count_of(s: Seq<int>, x: int) -> nat
    decreases s.len(),
{
    if s.len() == 0 {
        0
    } else {
        count_of(s.drop_last(), x) + if s.last() == x { 1nat } else { 0nat }
    }
}

/// Number of entries of `s` outside `done`.
pub open spec fn count_pending(s: Seq<int>, done: Set<int>) -> nat
    decreases s.len(),
{
    if s.len() == 0 {
        0
    } else {
        count_pending(s.drop_last(), done) + if done.contains(s.last()) { 0nat } else { 1nat }
    }
}

/// Position of `x` in `s`.
pub open spec fn position(s: Seq<int>, x: int) -> int {
    choose|p: int| 0 <= p < s.len() && s[p] == x
}

/// `order` lists `0..n` once each.
pub open spec fn is_permutation(order: Seq<int>, n: int) -> bool {
    &&& order.len() == n
    &&& forall|p: int| 0 <= p < n ==> 0 <= #[trigger] order[p] < n
    &&& forall|p: int, q: int| 0 <= p < q < n ==> order[p] != order[q]
}

/// The module at position `p` of `order` depends on a module placed at or
/// after position `k`.
pub open spec fn blocked(deps: Seq<Seq<int>>, order: Seq<int>, k: int, p: int) -> bool {
    exists|j: int, q: int|
        0 <= j < deps[order[p]].len() && k <= q < order.len() && #[trigger] order[q]
            == #[trigger] deps[order[p]][j]
}

/// Evaluation order for modules whose dependency lists are `deps`:
/// a permutation whose first `k` entries each come after all their
/// dependencies, and whose remaining entries, each blocked by a dependency
/// among them, follow in index order.
pub open spec fn valid_order(deps: Seq<Seq<int>>, order: Seq<int>, k: int) -> bool {
    let n = deps.len() as int;
    &&& is_permutation(order, n)
    &&& 0 <= k <= n
    &&& forall|p: int, j: int|
        0 <= p < k && 0 <= j < deps[order[p]].len() ==> exists|q: int|
            0 <= q < p && order[q] == #[trigger] deps[order[p]][j]
    &&& forall|p: int| k <= p < n ==> #[trigger] blocked(deps, order, k, p)
    &&& forall|p: int, q: int| k <= p < q < n ==> order[p] < order[q]
}

// ---------------------------------------------------------------------------
// Counting lemmas
// ---------------------------------------------------------------------------

proof fn lemma_count_pending_insert(s: Seq<int>, done: Set<int>, x: int)
    requires
        !done.contains(x),
    ensures
        count_pending(s, done.insert(x)) + count_of(s, x) == count_pending(s, done),
    decreases s.len(),
{
    if s.len() > 0 {
        lemma_count_pending_insert(s.drop_last(), done, x);
    }
}

proof fn lemma_count_pending_zero(s: Seq<int>, done: Set<int>)
    ensures
        count_pending(s, done) == 0 <==> forall|j: int| 0 <= j < s.len() ==> done.contains(
            #[trigger] s[j],
        ),
    decreases s.len(),
{
    if s.len() > 0 {
        lemma_count_pending_zero(s.drop_last(), done);
        if count_pending(s, done) == 0 {
            assert forall|j: int| 0 <= j < s.len() implies done.contains(#[trigger] s[j]) by {
                if j < s.len() - 1 {
                    assert(s[j] == s.drop_last()[j]);
                }
            }
        } else {
            if count_pending(s.drop_last(), done) > 0 {
                let j = choose|j: int|
                    0 <= j < s.drop_last().len() && !done.contains(#[trigger] s.drop_last()[j]);
                assert(s[j] == s.drop_last()[j]);
            }
        }
    }
}

pub(crate) proof fn lemma_count_of_push(s: Seq<int>, a: int, x: int)
    ensures
        count_of(s.push(a), x) == count_of(s, x) + if a == x { 1nat } else { 0nat },
{
    assert(s.push(a).drop_last() =~= s);
}

proof fn lemma_count_of_pos(s: Seq<int>, x: int)
    requires
        count_of(s, x) > 0,
    ensures
        exists|j: int| 0 <= j < s.len() && s[j] == x,
    decreases s.len(),
{
    if s.last() != x {
        lemma_count_of_pos(s.drop_last(), x);
        let j = choose|j: int| 0 <= j < s.drop_last().len() && s.drop_last()[j] == x;
        assert(s[j] == x);
    }
}

proof fn lemma_count_pending_le(s: Seq<int>, done: Set<int>)
    ensures
        count_pending(s, done) <= s.len(),
    decreases s.len(),
{
    if s.len() > 0 {
        lemma_count_pending_le(s.drop_last(), done);
    }
}

proof fn lemma_count_pending_empty(s: Seq<int>)
    ensures
        count_pending(s, Set::empty()) == s.len(),
    decreases s.len(),
{
    if s.len() > 0 {
        lemma_count_pending_empty(s.drop_last());
    }
}

proof fn lemma_deps_bounds(names: Seq<Seq<char>>, ds: Seq<Seq<char>>, v: int)
    ensures
        forall|j: int|
            0 <= j < deps_of(names, ds, v).len() ==> 0 <= #[trigger] deps_of(names, ds, v)[j]
                < names.len() && deps_of(names, ds, v)[j] != v,
        deps_of(names, ds, v).len() <= ds.len(),
    decreases ds.len(),
{
    if ds.len() > 0 {
        lemma_deps_bounds(names, ds.drop_last(), v);
        lemma_module_named_bounds(names, ds.last());
    }
}

proof fn lemma_module_named_bounds(names: Seq<Seq<char>>, name: Seq<char>)
    ensures
        match module_named(names, name) {
            Some(d) => 0 <= d < names.len() && names[d] == name,
            None => true,
        },
    decreases names.len(),
{
    if names.len() > 0 && names.last() != name {
        lemma_module_named_bounds(names.drop_last(), name);
    }
}

// ---------------------------------------------------------------------------
// Implementation
// ---------------------------------------------------------------------------

/// The names of the modules, as character sequences.
pub open spec fn source_names(sources: Seq<ModuleSource>) -> Seq<Seq<char>> {
    sources.map_values(|s: ModuleSource| s.name@)
}

/// The module names a list of declarations refers to.
pub open spec fn decl_modules(ds: Seq<UseDecl>) -> Seq<Seq<char>> {
    ds.map_values(|d: UseDecl| d.module@)
}

/// Index of the last module in `sources` called `name`.
fn find_module(sources: &[ModuleSource], name: &str) -> (r: Option<usize>)
    ensures
        module_named(source_names(sources@), name@) == match r {
            Some(i) => Some(i as int),
            None => None::<int>,
        },
{
    let ghost names = source_names(sources@);
    let mut i = sources.len();
    assert(names.take(i as int) =~= names);
    while i > 0
        invariant
            i <= sources.len(),
            names == source_names(sources@),
            module_named(names, name@) == module_named(names.take(i as int), name@),
        decreases i,
    {
        let ghost t = names.take(i as int);
        assert(t.last() == sources@[i - 1].name@);
        if str_equal(sources[i - 1].name.as_str(), name) {
            return Some(i - 1);
        }
        assert(t.drop_last() =~= names.take(i - 1));
        i -= 1;
    }
    assert(names.take(0) =~= Seq::<Seq<char>>::empty());
    None
}

/// Dependencies of every module, as `deps_of` lists them.
pub open spec fn module_deps(sources: Seq<ModuleSource>, decls: Seq<Vec<UseDecl>>) -> Seq<Seq<int>> {
    Seq::new(
        sources.len(),
        |v: int| deps_of(source_names(sources), decl_modules(decls[v]@), v),
    )
}

/// The entries of a `usize` sequence as integers.
pub open spec fn ints(s: Seq<usize>) -> Seq<int> {
    s.map_values(|x: usize| x as int)
}

/// `x` occurs among the first `h` entries of `q`.
pub open spec fn in_prefix(q: Seq<usize>, h: int, x: int) -> bool {
    exists|k: int| 0 <= k < h && q[k] as int == x
}

pub(crate) proof fn lemma_ints_push(s: Seq<usize>, a: usize)
    ensures
        ints(s.push(a)) == ints(s).push(a as int),
{
    assert(ints(s.push(a)) =~= ints(s).push(a as int));
}

/// Builds, for every module, its number of dependencies and the list of
/// modules depending on it (once per declaration).
fn dependency_graph(sources: &[ModuleSource], decls: &[Vec<UseDecl>]) -> (r: (
    Vec<usize>,
    Vec<Vec<usize>>,
))
    requires
        decls.len() == sources.len(),
    ensures
        r.0@.len() == sources.len(),
        r.1@.len() == sources.len(),
        forall|v: int|
            0 <= v < sources.len() ==> r.0@[v] == module_deps(sources@, decls@)[v].len(),
        forall|u: int, v: int|
            0 <= u < sources.len() ==> #[trigger] count_of(ints(r.1@[u]@), v) == if 0 <= v
                < sources.len() {
                count_of(module_deps(sources@, decls@)[v], u)
            } else {
                0
            },
        forall|u: int, k: int|
            0 <= u < sources.len() && 0 <= k < r.1@[u]@.len() ==> #[trigger] r.1@[u]@[k]
                < sources.len(),
{
    let n = sources.len();
    let ghost names = source_names(sources@);
    let ghost deps = module_deps(sources@, decls@);
    let mut in_degree: Vec<usize> = Vec::new();
    let mut dependents: Vec<Vec<usize>> = Vec::new();
    let mut i: usize = 0;
    while i < n
        invariant
            i <= n,
            n == sources.len(),
            in_degree@.len() == i,
            dependents@.len() == i,
            forall|u: int| 0 <= u < i ==> (#[trigger] dependents@[u])@.len() == 0,
            forall|u: int| 0 <= u < i ==> in_degree@[u] == 0,
        decreases n - i,
    {
        in_degree.push(0);
        dependents.push(Vec::new());
        i += 1;
    }
    assert forall|u: int, v: int| 0 <= u < n implies #[trigger] count_of(ints(dependents@[u]@), v)
        == 0 by {
        assert(ints(dependents@[u]@) =~= Seq::<int>::empty());
    }
    let mut i: usize = 0;
    while i < n
        invariant
            i <= n,
            n == sources.len(),
            decls.len() == n,
            names == source_names(sources@),
            deps == module_deps(sources@, decls@),
            in_degree@.len() == n,
            dependents@.len() == n,
            forall|v: int| 0 <= v < n ==> in_degree@[v] == if v < i { deps[v].len() } else { 0 },
            forall|u: int, v: int|
                0 <= u < n ==> #[trigger] count_of(ints(dependents@[u]@), v) == if 0 <= v < i {
                    count_of(deps[v], u)
                } else {
                    0
                },
            forall|u: int, k: int|
                0 <= u < n && 0 <= k < dependents@[u]@.len() ==> #[trigger] dependents@[u]@[k] < i,
        decreases n - i,
    {
        let ds = &decls[i];
        let ghost dm = decl_modules(ds@);
        let mut j: usize = 0;
        while j < ds.len()
            invariant
                i < n,
                j <= ds.len(),
                n == sources.len(),
                decls.len() == n,
                ds == decls@[i as int],
                dm == decl_modules(ds@),
                names == source_names(sources@),
                deps == module_deps(sources@, decls@),
                in_degree@.len() == n,
                dependents@.len() == n,
                forall|v: int|
                    0 <= v < n && v != i ==> in_degree@[v] == if v < i { deps[v].len() } else { 0 },
                in_degree@[i as int] == deps_of(names, dm.take(j as int), i as int).len(),
                forall|u: int, v: int|
                    0 <= u < n ==> #[trigger] count_of(ints(dependents@[u]@), v) == if 0 <= v < i {
                        count_of(deps[v], u)
                    } else if v == i {
                        count_of(deps_of(names, dm.take(j as int), i as int), u)
                    } else {
                        0
                    },
                forall|u: int, k: int|
                    0 <= u < n && 0 <= k < dependents@[u]@.len() ==> #[trigger] dependents@[u]@[k]
                        <= i,
                deps_of(names, dm.take(j as int), i as int).len() <= j,
            decreases ds.len() - j,
        {
            let ghost prev = deps_of(names, dm.take(j as int), i as int);
            assert(dm.take(j + 1).drop_last() =~= dm.take(j as int));
            assert(dm.take(j + 1).last() == ds@[j as int].module@);
            let found = find_module(sources, ds[j].module.as_str());
            proof {
                lemma_module_named_bounds(names, ds@[j as int].module@);
            }
            match found {
                Some(d) => {
                    if d != i {
                        let mut row: Vec<usize> = Vec::new();
                        dependents.set_and_swap(d, &mut row);
                        let ghost old_row = row@;
                        row.push(i);
                        proof {
                            lemma_ints_push(old_row, i);
                            assert forall|v: int| true implies count_of(ints(row@), v) == count_of(
                                ints(old_row),
                                v,
                            ) + if v == i { 1nat } else { 0nat } by {
                                lemma_count_of_push(ints(old_row), i as int, v);
                            }
                            assert forall|u: int| true implies count_of(
                                deps_of(names, dm.take(j + 1), i as int),
                                u,
                            ) == count_of(prev, u) + if u == d { 1nat } else { 0nat } by {
                                lemma_count_of_push(prev, d as int, u);
                            }
                        }
                        dependents.set(d, row);
                        in_degree.set(i, in_degree[i] + 1);
                    } else {
                        assert(deps_of(names, dm.take(j + 1), i as int) == prev);
                    }
                },
                None => {
                    assert(deps_of(names, dm.take(j + 1), i as int) == prev);
                },
            }
            j += 1;
        }
        assert(dm.take(ds.len() as int) =~= dm);
        assert(deps[i as int] == deps_of(names, dm, i as int));
        i += 1;
    }
    (in_degree, dependents)
}

/// Node `v` is flagged to go first and depends on nothing.
pub open spec fn starts_first(front: Seq<bool>, deps: Seq<Seq<int>>, v: int) -> bool {
    front[v] && deps[v].len() == 0
}

/// In `order`, every dependency-free flagged node comes before every other
/// node, and those nodes come latest index first.
pub open spec fn flagged_first(front: Seq<bool>, deps: Seq<Seq<int>>, order: Seq<int>) -> bool {
    forall|p: int, q: int|
        #![trigger order[p], order[q]]
        0 <= p < q < order.len() && starts_first(front, deps, order[q]) ==> starts_first(
            front,
            deps,
            order[p],
        ) && order[p] > order[q]
}

/// The same for a list of `usize` positions.
pub open spec fn queue_flagged_first(front: Seq<bool>, deps: Seq<Seq<int>>, queue: Seq<usize>) -> bool {
    forall|p: int, q: int|
        #![trigger queue[p], queue[q]]
        0 <= p < q < queue.len() && starts_first(front, deps, queue[q] as int) ==> starts_first(
            front,
            deps,
            queue[p] as int,
        ) && queue[p] > queue[q]
}

/// Order in which to evaluate the modules, and how many of them were
/// placed in dependency order (the rest are caught in `use` cycles).
pub fn module_order(sources: &[ModuleSource], decls: &[Vec<UseDecl>]) -> (r: (Vec<usize>, usize))
    requires
        decls.len() == sources.len(),
    ensures
        valid_order(module_deps(sources@, decls@), ints(r.0@), r.1 as int),
        flagged_first(root_flags(sources@), module_deps(sources@, decls@), ints(r.0@)),
{
    let n = sources.len();
    let ghost deps = module_deps(sources@, decls@);
    let (in_degree, dependents) = dependency_graph(sources, decls);
    let mut front: Vec<bool> = Vec::new();
    let mut i: usize = 0;
    while i < n
        invariant
            i <= n,
            n == sources.len(),
            front@.len() == i,
            forall|k: int| 0 <= k < i ==> front@[k] == sources@[k].is_root,
        decreases n - i,
    {
        front.push(sources[i].is_root);
        i += 1;
    }
    proof {
        assert forall|v: int, j: int|
            0 <= v < n && 0 <= j < deps[v].len() implies 0 <= #[trigger] deps[v][j] < n by {
            lemma_deps_bounds(source_names(sources@), decl_modules(decls@[v]@), v);
        }
    }
    assert(front@ =~= root_flags(sources@));
    kahn_order(Ghost(deps), in_degree, &dependents, front.as_slice())
}

/// Whether each module is a root module.
pub open spec fn root_flags(sources: Seq<ModuleSource>) -> Seq<bool> {
    sources.map_values(|s: ModuleSource| s.is_root)
}

/// Kahn's algorithm on the graph whose node `v` depends on the nodes
/// `deps[v]`, given each node's number of dependencies and, for each node,
/// the nodes depending on it.  Dependency-free nodes flagged in `front`
/// start the queue, latest first; the other dependency-free nodes follow
/// in index order.  Returns the order and how many nodes were placed in
/// dependency order; the rest, caught in cycles, follow in index order.
pub(crate) fn kahn_order(
    Ghost(deps): Ghost<Seq<Seq<int>>>,
    in_degree: Vec<usize>,
    dependents: &Vec<Vec<usize>>,
    front: &[bool],
) -> (r: (Vec<usize>, usize))
    requires
        deps.len() == front.len(),
        in_degree@.len() == front.len(),
        dependents@.len() == front.len(),
        forall|v: int| 0 <= v < deps.len() ==> in_degree@[v] == (#[trigger] deps[v]).len(),
        forall|u: int, v: int|
            0 <= u < deps.len() ==> #[trigger] count_of(ints(dependents@[u]@), v) == if 0 <= v
                < deps.len() {
                count_of(deps[v], u)
            } else {
                0
            },
        forall|u: int, k: int|
            0 <= u < deps.len() && 0 <= k < dependents@[u]@.len() ==> #[trigger] dependents@[u]@[k]
                < deps.len(),
        forall|v: int, j: int|
            0 <= v < deps.len() && 0 <= j < deps[v].len() ==> 0 <= #[trigger] deps[v][j]
                < deps.len(),
    ensures
        valid_order(deps, ints(r.0@), r.1 as int),
        flagged_first(front@, deps, ints(r.0@)),
{
    let n = front.len();
    let mut in_degree = in_degree;
    proof {
        assert forall|v: int| 0 <= v < n implies in_degree@[v] == count_pending(
            #[trigger] deps[v],
            Set::empty(),
        ) by {
            lemma_count_pending_empty(deps[v]);
        }
    }
    // Initial queue: dependency-free nodes flagged `front` first (latest
    // first), then the other dependency-free nodes in index order.
    let mut queue: Vec<usize> = Vec::new();
    let mut queued: Vec<bool> = Vec::new();
    let mut i: usize = 0;
    while i < n
        invariant
            i <= n,
            n == front.len(),
            in_degree@.len() == n,
            queued@.len() == i,
            forall|k: int| 0 <= k < queue@.len() ==> #[trigger] queue@[k] < i,
            forall|k: int, l: int| 0 <= k < l < queue@.len() ==> queue@[k] != queue@[l],
            forall|v: int|
                0 <= v < i ==> (queued@[v] <==> in_prefix(queue@, queue@.len() as int, v)),
            forall|v: int| 0 <= v < i ==> (queued@[v] <==> in_degree@[v] == 0),
            deps.len() == n,
            forall|v: int| 0 <= v < n ==> in_degree@[v] == (#[trigger] deps[v]).len(),
            queue_flagged_first(front@, deps, queue@),
        decreases n - i,
    {
        let zero = in_degree[i] == 0;
        let ghost q0 = queue@;
        if zero {
            if front[i] {
                queue.insert(0, i);
                assert(queue@ =~= seq![i].add(q0));
            } else {
                queue.push(i);
            }
        }
        queued.push(zero);
        proof {
            assert forall|w: int| true implies in_prefix(queue@, queue@.len() as int, w) == (
            in_prefix(q0, q0.len() as int, w) || (zero && w == i)) by {
                if in_prefix(queue@, queue@.len() as int, w) {
                    let k = choose|k: int| 0 <= k < queue@.len() && queue@[k] as int == w;
                    if zero && front@[i as int] {
                        if k > 0 {
                            assert(queue@[k] == q0[k - 1]);
                        }
                    } else if k < q0.len() {
                        assert(queue@[k] == q0[k]);
                    }
                }
                if in_prefix(q0, q0.len() as int, w) {
                    let k = choose|k: int| 0 <= k < q0.len() && q0[k] as int == w;
                    if zero && front@[i as int] {
                        assert(queue@[k + 1] == q0[k]);
                    } else {
                        assert(queue@[k] == q0[k]);
                    }
                }
                if zero && w == i {
                    if front@[i as int] {
                        assert(queue@[0] == i);
                    } else {
                        assert(queue@[q0.len() as int] == i);
                    }
                }
            }
            assert(queue_flagged_first(front@, deps, queue@)) by {
                assert forall|p: int, q: int|
                    #![trigger queue@[p], queue@[q]]
                    0 <= p < q < queue@.len() && starts_first(front@, deps, queue@[q] as int)
                    implies starts_first(front@, deps, queue@[p] as int) && queue@[p] > queue@[q] by {
                    if zero && front@[i as int] {
                        assert(queue@[q] == q0[q - 1]);
                        if p > 0 {
                            assert(queue@[p] == q0[p - 1]);
                        } else {
                            assert(q0[q - 1] < i);
                        }
                    } else if zero {
                        if q < q0.len() {
                            assert(queue@[q] == q0[q] && queue@[p] == q0[p]);
                        } else {
                            assert(queue@[q] == i);
                        }
                    }
                }
            }
            if zero {
                assert(!in_prefix(q0, q0.len() as int, i as int)) by {
                    if in_prefix(q0, q0.len() as int, i as int) {
                        let k = choose|k: int| 0 <= k < q0.len() && q0[k] as int == i as int;
                        assert(q0[k] < i);
                    }
                }
                assert forall|k: int, l: int| 0 <= k < l < queue@.len() implies queue@[k]
                    != queue@[l] by {
                    if front@[i as int] {
                        if k == 0 {
                            assert(queue@[l] == q0[l - 1]);
                            assert(q0[l - 1] < i);
                        } else {
                            assert(queue@[k] == q0[k - 1] && queue@[l] == q0[l - 1]);
                        }
                    } else {
                        if l == q0.len() {
                            assert(queue@[k] == q0[k]);
                            assert(q0[k] < i);
                        } else {
                            assert(queue@[k] == q0[k] && queue@[l] == q0[l]);
                        }
                    }
                }
                assert forall|k: int| 0 <= k < queue@.len() implies #[trigger] queue@[k] < i
                    + 1 by {
                    if front@[i as int] {
                        if k > 0 {
                            assert(queue@[k] == q0[k - 1]);
                        }
                    } else if k < q0.len() {
                        assert(queue@[k] == q0[k]);
                    }
                }
            }
        }
        i += 1;
    }
    proof {
        lemma_distinct_len(queue@, n as int);
    }
    // Kahn's algorithm: the popped prefix of `queue` is the order so far.
    let mut head: usize = 0;
    let ghost mut done: Set<int> = Set::empty();
    while head < queue.len()
        invariant
            n == front.len(),
            deps.len() == n,
            in_degree@.len() == n,
            queued@.len() == n,
            dependents@.len() == n,
            head <= queue@.len() <= n,
            forall|u: int, v: int|
                0 <= u < n ==> #[trigger] count_of(ints(dependents@[u]@), v) == if 0 <= v < n {
                    count_of(deps[v], u)
                } else {
                    0
                },
            forall|u: int, k: int|
                0 <= u < n && 0 <= k < dependents@[u]@.len() ==> #[trigger] dependents@[u]@[k]
                    < n,
            forall|v: int, j: int|
                0 <= v < n && 0 <= j < deps[v].len() ==> 0 <= #[trigger] deps[v][j] < n,
            forall|k: int| 0 <= k < queue@.len() ==> #[trigger] queue@[k] < n,
            forall|k: int, l: int| 0 <= k < l < queue@.len() ==> queue@[k] != queue@[l],
            forall|v: int|
                0 <= v < n ==> (queued@[v] <==> in_prefix(queue@, queue@.len() as int, v)),
            forall|v: int| 0 <= v < n ==> (queued@[v] <==> in_degree@[v] == 0),
            forall|x: int| done.contains(x) <==> in_prefix(queue@, head as int, x),
            forall|v: int| 0 <= v < n ==> in_degree@[v] == count_pending(#[trigger] deps[v], done),
            forall|v: int| 0 <= v < n && (#[trigger] deps[v]).len() == 0 ==> queued@[v],
            queue_flagged_first(front@, deps, queue@),
            forall|p: int, j: int|
                0 <= p < head && 0 <= j < deps[queue@[p] as int].len() ==> exists|q: int|
                    0 <= q < p && queue@[q] as int == #[trigger] deps[queue@[p] as int][j],
        decreases n - head,
    {
        let idx = queue[head];
        let ghost q0 = queue@;
        proof {
            lemma_count_pending_zero(deps[idx as int], done);
            assert(!done.contains(idx as int)) by {
                if in_prefix(queue@, head as int, idx as int) {
                    let k = choose|k: int| 0 <= k < head && queue@[k] as int == idx as int;
                    assert(queue@[k] == queue@[head as int]);
                }
            }
            assert forall|j: int| 0 <= j < deps[idx as int].len() implies exists|q: int|
                0 <= q < head && queue@[q] as int == #[trigger] deps[idx as int][j] by {
                assert(done.contains(deps[idx as int][j]));
            }
        }
        let ghost old_done = done;
        proof {
            done = done.insert(idx as int);
            assert forall|v: int| 0 <= v < n implies count_pending(#[trigger] deps[v], done)
                + count_of(deps[v], idx as int) == count_pending(deps[v], old_done) by {
                lemma_count_pending_insert(deps[v], old_done, idx as int);
            }
        }
        let row = &dependents[idx];
        proof {
            assert forall|v: int| #[trigger] count_of(ints(row@), v) == if 0 <= v < n {
                count_of(deps[v], idx as int)
            } else {
                0
            } by {
                assert(count_of(ints(dependents@[idx as int]@), v) == if 0 <= v < n {
                    count_of(deps[v], idx as int)
                } else {
                    0
                });
            }
            assert(ints(row@).take(0) =~= Seq::<int>::empty());
            assert(ints(row@.take(0)) =~= Seq::<int>::empty());
        }
        let mut j: usize = 0;
        while j < row.len()
            invariant
                n == front.len(),
                deps.len() == n,
                idx < n,
                j <= row@.len(),
                in_degree@.len() == n,
                queued@.len() == n,
                head < q0.len() <= queue@.len() <= n,
                forall|k: int| 0 <= k < q0.len() ==> queue@[k] == q0[k],
                q0[head as int] == idx,
                forall|k: int| 0 <= k < row@.len() ==> #[trigger] row@[k] < n,
                forall|v: int| #[trigger] count_of(ints(row@), v) == if 0 <= v < n {
                    count_of(deps[v], idx as int)
                } else {
                    0
                },
                forall|k: int| 0 <= k < queue@.len() ==> #[trigger] queue@[k] < n,
                forall|k: int, l: int| 0 <= k < l < queue@.len() ==> queue@[k] != queue@[l],
                forall|v: int|
                    0 <= v < n ==> (queued@[v] <==> in_prefix(queue@, queue@.len() as int, v)),
                forall|v: int| 0 <= v < n ==> (queued@[v] <==> in_degree@[v] == 0),
                forall|v: int|
                    0 <= v < n ==> in_degree@[v] + count_of(ints(row@.take(j as int)), v)
                        == count_pending(#[trigger] deps[v], old_done),
                forall|v: int|
                    0 <= v < n ==> count_pending(#[trigger] deps[v], done) + count_of(
                        deps[v],
                        idx as int,
                    ) == count_pending(deps[v], old_done),
                forall|v: int| 0 <= v < n && (#[trigger] deps[v]).len() == 0 ==> queued@[v],
                queue_flagged_first(front@, deps, queue@),
            decreases row@.len() - j,
        {
            let v = row[j];
            let ghost qa = queue@;
            proof {
                assert(ints(row@.take(j + 1)) =~= ints(row@.take(j as int)).push(v as int));
                assert forall|w: int| true implies count_of(ints(row@.take(j + 1)), w) == count_of(
                    ints(row@.take(j as int)),
                    w,
                ) + if w == v { 1nat } else { 0nat } by {
                    lemma_count_of_push(ints(row@.take(j as int)), v as int, w);
                }
                assert(ints(row@).take(j + 1) =~= ints(row@.take(j + 1)));
                lemma_count_prefix_le(ints(row@), j as int + 1, v as int);
                assert(count_of(ints(row@), v as int) == count_of(deps[v as int], idx as int));
            }
            let d = in_degree[v] - 1;
            in_degree.set(v, d);
            if d == 0 {
                assert(!queued@[v as int]);
                queue.push(v);
                queued.set(v, true);
                proof {
                    assert(!in_prefix(qa, qa.len() as int, v as int));
                    assert forall|w: int| 0 <= w < n implies (queued@[w] <==> in_prefix(
                        queue@,
                        queue@.len() as int,
                        w,
                    )) by {
                        if in_prefix(queue@, queue@.len() as int, w) {
                            let k = choose|k: int| 0 <= k < queue@.len() && queue@[k] as int == w;
                            if k < qa.len() {
                                assert(queue@[k] == qa[k]);
                                assert(in_prefix(qa, qa.len() as int, w));
                            }
                        }
                        if in_prefix(qa, qa.len() as int, w) {
                            let k = choose|k: int| 0 <= k < qa.len() && qa[k] as int == w;
                            assert(queue@[k] == qa[k]);
                        }
                        if w == v as int {
                            assert(queue@[qa.len() as int] == v);
                        }
                    }
                    assert forall|k: int, l: int| 0 <= k < l < queue@.len() implies queue@[k]
                        != queue@[l] by {
                        if l == qa.len() {
                            assert(queue@[k] == qa[k]);
                            if qa[k] == v {
                                assert(in_prefix(qa, qa.len() as int, v as int));
                            }
                        } else {
                            assert(queue@[k] == qa[k] && queue@[l] == qa[l]);
                        }
                    }
                    lemma_distinct_len(queue@, n as int);
                    assert(queue_flagged_first(front@, deps, queue@)) by {
                        assert forall|p: int, q: int|
                            #![trigger queue@[p], queue@[q]]
                            0 <= p < q < queue@.len() && starts_first(front@, deps, queue@[q] as int)
                            implies starts_first(front@, deps, queue@[p] as int) && queue@[p] > queue@[q] by {
                            assert(queue@[p] == qa[p]);
                            if q < qa.len() {
                                assert(queue@[q] == qa[q]);
                            } else {
                                assert(queue@[q] == v);
                            }
                        }
                    }
                }
            }
            j += 1;
        }
        proof {
            assert(row@.take(row@.len() as int) =~= row@);
            assert forall|x: int| done.contains(x) <==> in_prefix(queue@, head + 1, x) by {
                if in_prefix(queue@, head + 1, x) {
                    let k = choose|k: int| 0 <= k < head + 1 && queue@[k] as int == x;
                    if k < head {
                        assert(queue@[k] == q0[k]);
                        assert(in_prefix(q0, head as int, x));
                    } else {
                        assert(queue@[k] == idx);
                    }
                }
                if old_done.contains(x) {
                    let k = choose|k: int| 0 <= k < head && q0[k] as int == x;
                    assert(queue@[k] as int == x);
                }
                if x == idx as int {
                    assert(queue@[head as int] as int == x);
                }
            }
            assert forall|p: int, jj: int|
                0 <= p < head + 1 && 0 <= jj < deps[queue@[p] as int].len() implies exists|q: int|
                0 <= q < p && queue@[q] as int == #[trigger] deps[queue@[p] as int][jj] by {
                assert(queue@[p] == q0[p]);
                let q = choose|q: int| 0 <= q < p && q0[q] as int == deps[q0[p] as int][jj];
                assert(queue@[q] == q0[q]);
            }
        }
        head += 1;
    }
    let emitted = head;
    proof {
        assert forall|k: int| emitted <= k < queue@.len() implies in_degree@[#[trigger] queue@[k]
            as int] > 0 by {}
    }
    // Nodes left over are part of (or depend on) a cycle.
    let mut v: usize = 0;
    while v < n
        invariant
            n == front.len(),
            deps.len() == n,
            v <= n,
            emitted <= queue@.len() <= n,
            queued@.len() == n,
            in_degree@.len() == n,
            forall|k: int| 0 <= k < queue@.len() ==> #[trigger] queue@[k] < n,
            forall|k: int, l: int| 0 <= k < l < queue@.len() ==> queue@[k] != queue@[l],
            forall|w: int|
                0 <= w < n ==> (queued@[w] <==> in_prefix(queue@, queue@.len() as int, w)),
            forall|w: int| 0 <= w < v ==> queued@[w],
            forall|w: int| 0 <= w < n && !queued@[w] ==> in_degree@[w] > 0,
            forall|w: int| 0 <= w < n && (#[trigger] deps[w]).len() == 0 ==> queued@[w],
            queue_flagged_first(front@, deps, queue@),
            forall|k: int| emitted <= k < queue@.len() ==> #[trigger] queue@[k] < v,
            forall|k: int, l: int| emitted <= k < l < queue@.len() ==> queue@[k] < queue@[l],
            forall|k: int|
                emitted <= k < queue@.len() ==> in_degree@[#[trigger] queue@[k] as int] > 0,
            forall|x: int| done.contains(x) <==> in_prefix(queue@, emitted as int, x),
            forall|w: int| 0 <= w < n ==> in_degree@[w] == count_pending(#[trigger] deps[w], done),
            forall|v: int, j: int|
                0 <= v < n && 0 <= j < deps[v].len() ==> 0 <= #[trigger] deps[v][j] < n,
            forall|p: int, j: int|
                0 <= p < emitted && 0 <= j < deps[queue@[p] as int].len() ==> exists|q: int|
                    0 <= q < p && queue@[q] as int == #[trigger] deps[queue@[p] as int][j],
        decreases n - v,
    {
        if !queued[v] {
            let ghost qa = queue@;
            proof {
                assert(in_degree@[v as int] > 0);
            }
            queue.push(v);
            queued.set(v, true);
            proof {
                assert(!in_prefix(qa, qa.len() as int, v as int));
                assert forall|w: int| 0 <= w < n implies (queued@[w] <==> in_prefix(
                    queue@,
                    queue@.len() as int,
                    w,
                )) by {
                    if in_prefix(queue@, queue@.len() as int, w) {
                        let k = choose|k: int| 0 <= k < queue@.len() && queue@[k] as int == w;
                        if k < qa.len() {
                            assert(queue@[k] == qa[k]);
                            assert(in_prefix(qa, qa.len() as int, w));
                        }
                    }
                    if in_prefix(qa, qa.len() as int, w) {
                        let k = choose|k: int| 0 <= k < qa.len() && qa[k] as int == w;
                        assert(queue@[k] == qa[k]);
                    }
                    if w == v as int {
                        assert(queue@[qa.len() as int] == v);
                    }
                }
                assert forall|k: int, l: int| 0 <= k < l < queue@.len() implies queue@[k]
                    != queue@[l] by {
                    if l == qa.len() {
                        assert(queue@[k] == qa[k]);
                        if qa[k] == v {
                            assert(in_prefix(qa, qa.len() as int, v as int));
                        }
                    } else {
                        assert(queue@[k] == qa[k] && queue@[l] == qa[l]);
                    }
                }
                assert forall|x: int| done.contains(x) <==> in_prefix(queue@, emitted as int, x) by {
                    if in_prefix(queue@, emitted as int, x) {
                        let k = choose|k: int| 0 <= k < emitted && queue@[k] as int == x;
                        assert(queue@[k] == qa[k]);
                        assert(in_prefix(qa, emitted as int, x));
                    }
                    if in_prefix(qa, emitted as int, x) {
                        let k = choose|k: int| 0 <= k < emitted && qa[k] as int == x;
                        assert(queue@[k] == qa[k]);
                    }
                }
                assert forall|p: int, j: int|
                    0 <= p < emitted && 0 <= j < deps[queue@[p] as int].len() implies exists|q: int|
                    0 <= q < p && queue@[q] as int == #[trigger] deps[queue@[p] as int][j] by {
                    assert(queue@[p] == qa[p]);
                    let q = choose|q: int| 0 <= q < p && qa[q] as int == deps[qa[p] as int][j];
                    assert(queue@[q] == qa[q]);
                }
                lemma_distinct_len(queue@, n as int);
                assert(queue_flagged_first(front@, deps, queue@)) by {
                    assert forall|p: int, q: int|
                        #![trigger queue@[p], queue@[q]]
                        0 <= p < q < queue@.len() && starts_first(front@, deps, queue@[q] as int)
                        implies starts_first(front@, deps, queue@[p] as int) && queue@[p] > queue@[q] by {
                        assert(queue@[p] == qa[p]);
                        if q < qa.len() {
                            assert(queue@[q] == qa[q]);
                        } else {
                            assert(queue@[q] == v);
                        }
                    }
                }
            }
        }
        v += 1;
    }
    proof {
        assert forall|w: int| 0 <= w < n implies in_prefix(queue@, queue@.len() as int, w) by {
            assert(queued@[w]);
        }
        lemma_distinct_len(queue@, n as int);
        lemma_covers_len(queue@, n as int);
        lemma_order_properties(deps, queue@, emitted as int, done, in_degree@);
        assert forall|p: int, q: int|
            #![trigger ints(queue@)[p], ints(queue@)[q]]
            0 <= p < q < ints(queue@).len() && starts_first(front@, deps, ints(queue@)[q])
            implies starts_first(front@, deps, ints(queue@)[p]) && ints(queue@)[p] > ints(queue@)[q] by {
            assert(ints(queue@)[q] == queue@[q] as int && ints(queue@)[p] == queue@[p] as int);
            assert(starts_first(front@, deps, queue@[q] as int));
        }
    }
    (queue, emitted)
}

/// Distinct values below `n` number at most `n`.
proof fn lemma_distinct_len(s: Seq<usize>, n: int)
    requires
        0 <= n,
        forall|k: int| 0 <= k < s.len() ==> #[trigger] s[k] < n,
        forall|k: int, l: int| 0 <= k < l < s.len() ==> s[k] != s[l],
    ensures
        s.len() <= n,
{
    let t = ints(s);
    assert forall|k: int, l: int| 0 <= k < t.len() && 0 <= l < t.len() && k != l implies t[k]
        != t[l] by {
        if k < l {
            assert(s[k] != s[l]);
        } else {
            assert(s[l] != s[k]);
        }
    }
    assert(t.no_duplicates());
    t.unique_seq_to_set();
    let m = t.to_set();
    let full = vstd::set_lib::set_int_range(0, n);
    vstd::set_lib::lemma_int_range(0, n);
    assert forall|y: int| m.contains(y) implies full.contains(y) by {
        let k = choose|k: int| 0 <= k < t.len() && t[k] == y;
        assert(s[k] < n);
    }
    vstd::set_lib::lemma_len_subset(m, full);
}

/// A sequence containing every value below `n` has at least `n` entries.
proof fn lemma_covers_len(s: Seq<usize>, n: int)
    requires
        0 <= n,
        forall|w: int| 0 <= w < n ==> in_prefix(s, s.len() as int, w),
    ensures
        s.len() >= n,
{
    let t = ints(s);
    let full = vstd::set_lib::set_int_range(0, n);
    vstd::set_lib::lemma_int_range(0, n);
    let m = t.to_set();
    assert forall|y: int| full.contains(y) implies m.contains(y) by {
        assert(in_prefix(s, s.len() as int, y));
        let k = choose|k: int| 0 <= k < s.len() as int && s[k] as int == y;
        assert(t[k] == y);
    }
    vstd::seq_lib::seq_to_set_is_finite(t);
    vstd::set_lib::lemma_len_subset(full, m);
    t.lemma_cardinality_of_set();
}

proof fn lemma_count_prefix_le(s: Seq<int>, j: int, x: int)
    requires
        0 <= j <= s.len(),
    ensures
        count_of(s.take(j), x) <= count_of(s, x),
    decreases s.len() - j,
{
    if j < s.len() {
        assert(s.drop_last().take(j) =~= s.take(j));
        lemma_count_prefix_le(s.drop_last(), j, x);
    } else {
        assert(s.take(j) =~= s);
    }
}

/// Each module of the cycle-blocked suffix waits on a dependency that is
/// itself in the suffix.
proof fn lemma_blocked_suffix(
    deps: Seq<Seq<int>>,
    queue: Seq<usize>,
    emitted: int,
    done: Set<int>,
    in_degree: Seq<usize>,
)
    requires
        queue.len() == deps.len(),
        0 <= emitted <= queue.len(),
        in_degree.len() == deps.len(),
        forall|k: int| 0 <= k < queue.len() ==> #[trigger] queue[k] < deps.len(),
        forall|k: int, l: int| 0 <= k < l < queue.len() ==> queue[k] != queue[l],
        forall|k: int| emitted <= k < queue.len() ==> in_degree[#[trigger] queue[k] as int] > 0,
        forall|x: int| done.contains(x) <==> in_prefix(queue, emitted, x),
        forall|w: int| 0 <= w < deps.len() ==> in_degree[w] == count_pending(#[trigger] deps[w], done),
        forall|v: int, j: int| 0 <= v < deps.len() && 0 <= j < deps[v].len() ==> 0 <= #[trigger] deps[v][j] < deps.len(),
    ensures
        forall|p: int| emitted <= p < deps.len() ==> #[trigger] blocked(deps, ints(queue), emitted, p),
{
    assert forall|p: int| emitted <= p < deps.len() implies #[trigger] blocked(deps, ints(queue), emitted, p) by {
        let v = ints(queue)[p];
        assert(v == queue[p] as int);
        assert(in_degree[queue[p] as int] > 0);
        lemma_count_pending_zero(deps[v], done);
        let j = choose|j: int| 0 <= j < deps[v].len() && !done.contains(#[trigger] deps[v][j]);
        let u = deps[v][j];
        lemma_permutation_covers(queue, u);
        let q = choose|q: int| 0 <= q < deps.len() && queue[q] as int == u;
        if q < emitted {
            assert(in_prefix(queue, emitted, u));
            assert(false);
        }
        assert(ints(queue)[q] == queue[q] as int);
        assert(ints(queue)[q] == deps[ints(queue)[p]][j]);
    }
}

#[verifier::rlimit(30)]
proof fn lemma_order_properties(
    deps: Seq<Seq<int>>,
    queue: Seq<usize>,
    emitted: int,
    done: Set<int>,
    in_degree: Seq<usize>,
)
    requires
        queue.len() == deps.len(),
        0 <= emitted <= queue.len(),
        in_degree.len() == deps.len(),
        forall|k: int| 0 <= k < queue.len() ==> #[trigger] queue[k] < deps.len(),
        forall|k: int, l: int| 0 <= k < l < queue.len() ==> queue[k] != queue[l],
        forall|k: int, l: int| emitted <= k < l < queue.len() ==> queue[k] < queue[l],
        forall|k: int| emitted <= k < queue.len() ==> in_degree[#[trigger] queue[k] as int] > 0,
        forall|x: int| done.contains(x) <==> in_prefix(queue, emitted, x),
        forall|w: int| 0 <= w < deps.len() ==> in_degree[w] == count_pending(#[trigger] deps[w], done),
        forall|v: int, j: int| 0 <= v < deps.len() && 0 <= j < deps[v].len() ==> 0 <= #[trigger] deps[v][j] < deps.len(),
        forall|p: int, j: int|
            0 <= p < emitted && 0 <= j < deps[queue[p] as int].len() ==> exists|q: int|
                0 <= q < p && queue[q] as int == #[trigger] deps[queue[p] as int][j],
    ensures
        valid_order(deps, ints(queue), emitted),
{
    lemma_blocked_suffix(deps, queue, emitted, done, in_degree);
    assert forall|p: int| 0 <= p < deps.len() implies 0 <= #[trigger] ints(queue)[p] < deps.len() by {
        assert(ints(queue)[p] == queue[p] as int);
    }
    assert forall|p: int, q: int| 0 <= p < q < deps.len() implies ints(queue)[p] != ints(queue)[q] by {
        assert(ints(queue)[p] == queue[p] as int && ints(queue)[q] == queue[q] as int);
    }
    assert forall|p: int, q: int| emitted <= p < q < deps.len() implies ints(queue)[p] < ints(queue)[q] by {
        assert(ints(queue)[p] == queue[p] as int && ints(queue)[q] == queue[q] as int);
    }
    assert forall|p: int, j: int|
        0 <= p < emitted && 0 <= j < deps[ints(queue)[p]].len() implies exists|q: int|
            0 <= q < p && ints(queue)[q] == #[trigger] deps[ints(queue)[p]][j] by {
        assert(ints(queue)[p] == queue[p] as int);
        let q = choose|q: int| 0 <= q < p && queue[q] as int == deps[queue[p] as int][j];
        assert(ints(queue)[q] == queue[q] as int);
    }
}

/// A sequence of `n` distinct values below `n` contains every value below `n`.
proof fn lemma_permutation_covers(s: Seq<usize>, x: int)
    requires
        forall|k: int| 0 <= k < s.len() ==> #[trigger] s[k] < s.len(),
        forall|k: int, l: int| 0 <= k < l < s.len() ==> s[k] != s[l],
        0 <= x < s.len(),
    ensures
        exists|q: int| 0 <= q < s.len() && s[q] as int == x,
{
    let t = ints(s);
    assert forall|k: int, l: int| 0 <= k < t.len() && 0 <= l < t.len() && k != l implies t[k]
        != t[l] by {
        if k < l {
            assert(s[k] != s[l]);
        } else {
            assert(s[l] != s[k]);
        }
    }
    assert(t.no_duplicates());
    t.unique_seq_to_set();
    let m = t.to_set();
    let full = vstd::set_lib::set_int_range(0, s.len() as int);
    vstd::set_lib::lemma_int_range(0, s.len() as int);
    assert forall|y: int| m.contains(y) implies full.contains(y) by {
        let k = choose|k: int| 0 <= k < t.len() && t[k] == y;
        assert(s[k] < s.len());
    }
    assert(m.subset_of(full));
    vstd::seq_lib::seq_to_set_is_finite(t);
    vstd::set_lib::lemma_subset_equality(m, full);
    assert(full.contains(x));
    assert(m.contains(x));
    let k = choose|k: int| 0 <= k < t.len() && t[k] == x;
    assert(s[k] as int == x);
}


// ---------------------------------------------------------------------------
// What each module imports
// ---------------------------------------------------------------------------

/// What a module imports before it is evaluated: the exports of a root
/// module, and the exports of each module its `use` declarations name
/// (all of them, or one item).
pub struct ModuleImports {
    pub root: Option<usize>,
    pub uses: Vec<(usize, Option<String>)>,
}

/// The module evaluated last among the first `p` entries of `order` whose
/// name is `name`.
pub open spec fn latest_named(names: Seq<Seq<char>>, order: Seq<int>, p: int, name: Seq<char>) -> Option<int>
    decreases p,
{
    if p <= 0 {
        None
    } else if names[order[p - 1]] == name {
        Some(order[p - 1])
    } else {
        latest_named(names, order, p - 1, name)
    }
}

/// The root module evaluated last among the first `p` entries of `order`.
pub open spec fn latest_root(sources: Seq<ModuleSource>, order: Seq<int>, p: int) -> Option<int>
    decreases p,
{
    if p <= 0 {
        None
    } else if sources[order[p - 1]].is_root {
        Some(order[p - 1])
    } else {
        latest_root(sources, order, p - 1)
    }
}

/// The item a declaration imports: `None` for everything (no item, or `*`).
pub open spec fn imported_item(d: UseDecl) -> Option<Seq<char>> {
    match d.item {
        Some(s) => if s@ == "*"@ {
            None
        } else {
            Some(s@)
        },
        None => None,
    }
}

/// Imports of the declarations `ds` of the module at position `p`: one
/// entry per declaration naming a module evaluated before it.
pub open spec fn use_imports(names: Seq<Seq<char>>, order: Seq<int>, p: int, ds: Seq<UseDecl>) -> Seq<(int, Option<Seq<char>>)>
    decreases ds.len(),
{
    if ds.len() == 0 {
        Seq::empty()
    } else {
        let rest = use_imports(names, order, p, ds.drop_last());
        match latest_named(names, order, p, ds.last().module@) {
            Some(m) => rest.push((m, imported_item(ds.last()))),
            None => rest,
        }
    }
}

/// The value of an import list.
pub open spec fn uses_view(u: Seq<(usize, Option<String>)>) -> Seq<(int, Option<Seq<char>>)> {
    u.map_values(|x: (usize, Option<String>)| (x.0 as int, match x.1 {
        Some(s) => Some(s@),
        None => None,
    }))
}

/// Position of the last module among the first `p` of `order` named `name`.
fn find_latest(sources: &[ModuleSource], order: &[usize], p: usize, name: &str) -> (r: Option<usize>)
    requires
        p <= order.len(),
        forall|k: int| 0 <= k < order.len() ==> (#[trigger] order@[k]) < sources.len(),
    ensures
        match r {
            Some(m) => latest_named(source_names(sources@), ints(order@), p as int, name@) == Some(m as int),
            None => latest_named(source_names(sources@), ints(order@), p as int, name@) is None,
        },
{
    let ghost names = source_names(sources@);
    let ghost ord = ints(order@);
    let mut q = p;
    while q > 0
        invariant
            q <= p <= order.len(),
            names == source_names(sources@),
            ord == ints(order@),
            forall|k: int| 0 <= k < order.len() ==> (#[trigger] order@[k]) < sources.len(),
            latest_named(names, ord, p as int, name@) == latest_named(names, ord, q as int, name@),
        decreases q,
    {
        let m = order[q - 1];
        assert(ord[q - 1] == m as int);
        assert(names[m as int] == sources@[m as int].name@);
        if str_equal(sources[m].name.as_str(), name) {
            return Some(m);
        }
        q -= 1;
    }
    None
}

/// The imports of every module, in evaluation order: a non-root module
/// imports the last root evaluated before it; each `use` declaration
/// imports from the last module of that name evaluated before it, and is
/// dropped when there is none.
pub fn import_plan(sources: &[ModuleSource], decls: &[Vec<UseDecl>], order: &[usize]) -> (r: Vec<ModuleImports>)
    requires
        decls.len() == sources.len(),
        forall|k: int| 0 <= k < order.len() ==> (#[trigger] order@[k]) < sources.len(),
    ensures
        r@.len() == order@.len(),
        forall|p: int| 0 <= p < order@.len() ==> {
            &&& (#[trigger] r@[p]).root == (if sources@[order@[p] as int].is_root {
                None
            } else {
                match latest_root(sources@, ints(order@), p) {
                    Some(m) => Some(m as usize),
                    None => None,
                }
            })
            &&& uses_view(r@[p].uses@) == use_imports(source_names(sources@), ints(order@), p, decls@[order@[p] as int]@)
        },
{
    let ghost names = source_names(sources@);
    let ghost ord = ints(order@);
    let mut plan: Vec<ModuleImports> = Vec::new();
    let mut root: Option<usize> = None;
    let mut p: usize = 0;
    while p < order.len()
        invariant
            p <= order.len(),
            decls.len() == sources.len(),
            names == source_names(sources@),
            ord == ints(order@),
            forall|k: int| 0 <= k < order.len() ==> (#[trigger] order@[k]) < sources.len(),
            plan@.len() == p,
            root == match latest_root(sources@, ord, p as int) {
                Some(m) => Some(m as usize),
                None => None::<usize>,
            },
            latest_root(sources@, ord, p as int) matches Some(m) ==> 0 <= m < sources.len(),
            forall|q: int| 0 <= q < p ==> {
                &&& (#[trigger] plan@[q]).root == (if sources@[order@[q] as int].is_root {
                    None
                } else {
                    match latest_root(sources@, ord, q) {
                        Some(m) => Some(m as usize),
                        None => None,
                    }
                })
                &&& uses_view(plan@[q].uses@) == use_imports(names, ord, q, decls@[order@[q] as int]@)
            },
        decreases order.len() - p,
    {
        let idx = order[p];
        assert(ord[p as int] == idx as int);
        let ds = &decls[idx];
        let mut uses: Vec<(usize, Option<String>)> = Vec::new();
        let mut j: usize = 0;
        assert(uses_view(uses@) =~= use_imports(names, ord, p as int, ds@.take(0)));
        while j < ds.len()
            invariant
                j <= ds@.len(),
                p < order.len(),
                names == source_names(sources@),
                ord == ints(order@),
                forall|k: int| 0 <= k < order.len() ==> (#[trigger] order@[k]) < sources.len(),
                uses_view(uses@) == use_imports(names, ord, p as int, ds@.take(j as int)),
            decreases ds@.len() - j,
        {
            assert(ds@.take(j + 1).drop_last() =~= ds@.take(j as int));
            assert(ds@.take(j + 1).last() == ds@[j as int]);
            let d = &ds[j];
            match find_latest(sources, order, p, d.module.as_str()) {
                Some(m) => {
                    let item = match &d.item {
                        Some(s) => if str_equal(s.as_str(), "*") {
                            None
                        } else {
                            Some(s.clone())
                        },
                        None => None,
                    };
                    let ghost before = uses@;
                    uses.push((m, item));
                    assert(uses_view(uses@) =~= uses_view(before).push((m as int, imported_item(ds@[j as int]))));
                },
                None => {},
            }
            j += 1;
        }
        assert(ds@.take(ds@.len() as int) =~= ds@);
        let this_root = if sources[idx].is_root {
            None
        } else {
            root
        };
        plan.push(ModuleImports { root: this_root, uses });
        if sources[idx].is_root {
            root = Some(idx);
        }
        p += 1;
    }
    plan
}

} // verus!
