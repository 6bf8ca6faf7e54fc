//! A dependency-ordered task scheduler.
//!
//! Tasks are named by strings; an edge (parent, child) means the parent task
//! must finish before the child may begin.  [`TaskGraph::build`] constructs
//! the graph from such instructions, [`serial_walk`] produces the unique
//! topological order that always takes the lexicographically smallest ready
//! task next, and [`simulate`] runs a discrete-event simulation of a fixed
//! pool of identical workers consuming tasks whose durations derive from
//! their names.

use vstd::prelude::*;

use crate::text::lex_lt;
use crate::text::lemma_lex_asym;
use crate::text::lemma_lex_connex;
use crate::text::lemma_lex_trans;
use crate::text::str_eq;
use crate::text::str_lt;

verus! {

/// One precedence instruction: `parent` must finish before `name` can begin.
#[derive(Clone, Debug)]
pub struct Instruction {
    pub name: String,
    pub parent: String,
}

impl Instruction {
    pub fn new(name: &str, parent: &str) -> (r: Instruction)
        ensures
            r.name@ == name@,
            r.parent@ == parent@,
    {
        Instruction { name: name.to_owned(), parent: parent.to_owned() }
    }
}

/// A task graph: a set of named tasks with precedence edges, stored as an
/// arena of integer-indexed nodes with successor and predecessor lists.
pub struct TaskGraph {
    pub names: Vec<String>,
    pub succs: Vec<Vec<usize>>,
    pub preds: Vec<Vec<usize>>,
}

impl TaskGraph {
    /// Number of tasks in the graph.
    pub open spec fn task_count(self) -> nat {
        self.names@.len()
    }

    /// The name of the task with index `i`, as a character sequence.
    pub open spec fn name_at(self, i: usize) -> Seq<char> {
        self.names@[i as int]@
    }

    /// There is an edge requiring task `p` to finish before task `c` begins.
    pub open spec fn has_edge(self, p: usize, c: usize) -> bool {
        p < self.task_count() && self.succs@[p as int]@.contains(c)
    }

    /// Structural well-formedness: parallel arenas of equal length, indices
    /// in range, successor and predecessor lists mirroring each other, and
    /// pairwise distinct task names.
    pub open spec fn wf(self) -> bool {
        &&& self.task_count() <= usize::MAX
        &&& self.succs@.len() == self.task_count()
        &&& self.preds@.len() == self.task_count()
        &&& forall|p: int, k: int|
            0 <= p < self.task_count() && 0 <= k < self.succs@[p]@.len()
                ==> (#[trigger] self.succs@[p]@[k]) < self.task_count()
        &&& forall|c: int, k: int|
            0 <= c < self.task_count() && 0 <= k < self.preds@[c]@.len()
                ==> (#[trigger] self.preds@[c]@[k]) < self.task_count()
        &&& forall|p: usize, c: usize|
            p < self.task_count() && c < self.task_count()
                ==> (self.succs@[p as int]@.contains(c) == #[trigger] self.preds@[c as int]@.contains(
                    p,
                ))
        &&& forall|i: usize, j: usize|
            i < j < self.task_count() ==> #[trigger] self.name_at(i) != #[trigger] self.name_at(j)
    }

    /// The number of tasks, as an executable value.
    pub fn len(&self) -> (r: usize)
        ensures
            r == self.task_count(),
    {
        self.names.len()
    }

    /// The name of task `i`.
    pub fn name(&self, i: usize) -> (r: &String)
        requires
            i < self.task_count(),
        ensures
            r@ == self.name_at(i),
    {
        &self.names[i]
    }

    /// The successor list of task `i`: every task that must wait for `i`.
    pub fn successors(&self, i: usize) -> (r: &Vec<usize>)
        requires
            self.wf(),
            i < self.task_count(),
        ensures
            r@ == self.succs@[i as int]@,
    {
        &self.succs[i]
    }

    /// The predecessor list of task `i`.
    pub fn predecessors(&self, i: usize) -> (r: &Vec<usize>)
        requires
            self.wf(),
            i < self.task_count(),
        ensures
            r@ == self.preds@[i as int]@,
    {
        &self.preds[i]
    }
}

/// The distinct task names appearing in `insts`, child name before parent
/// name within one instruction, in order of first appearance.
pub open spec fn spec_task_names(insts: Seq<Instruction>) -> Seq<Seq<char>>
    decreases insts.len(),
{
    if insts.len() == 0 {
        Seq::empty()
    } else {
        let rest = spec_task_names(insts.drop_last());
        let with_name = if rest.contains(insts.last().name@) {
            rest
        } else {
            rest.push(insts.last().name@)
        };
        if with_name.contains(insts.last().parent@) {
            with_name
        } else {
            with_name.push(insts.last().parent@)
        }
    }
}

/// A name stands in `spec_task_names` exactly when some instruction uses it.
pub proof fn lemma_task_names_membership(insts: Seq<Instruction>, s: Seq<char>)
    ensures
        spec_task_names(insts).contains(s) <==> exists|k: int|
            0 <= k < insts.len() && ((#[trigger] insts[k]).name@ == s || insts[k].parent@ == s),
    decreases insts.len(),
{
    if insts.len() > 0 {
        lemma_task_names_membership(insts.drop_last(), s);
        let last = insts.last();
        if spec_task_names(insts).contains(s) {
            if !spec_task_names(insts.drop_last()).contains(s) {
                assert(last.name@ == s || last.parent@ == s);
            } else {
                let k = choose|k: int|
                    0 <= k < insts.drop_last().len() && ((#[trigger] insts.drop_last()[k]).name@
                        == s || insts.drop_last()[k].parent@ == s);
                assert(insts[k].name@ == s || insts[k].parent@ == s);
            }
        }
        if exists|k: int|
            0 <= k < insts.len() && ((#[trigger] insts[k]).name@ == s || insts[k].parent@ == s) {
            let k = choose|k: int|
                0 <= k < insts.len() && ((#[trigger] insts[k]).name@ == s || insts[k].parent@
                    == s);
            if k < insts.len() - 1 {
                assert(insts.drop_last()[k] == insts[k]);
                assert(spec_task_names(insts.drop_last()).contains(s));
                let rest = spec_task_names(insts.drop_last());
                let with_name = if rest.contains(last.name@) {
                    rest
                } else {
                    rest.push(last.name@)
                };
                assert(with_name.contains(s)) by {
                    let j = choose|j: int| 0 <= j < rest.len() && rest[j] == s;
                    assert(with_name[j] == s);
                }
                let final_names = if with_name.contains(last.parent@) {
                    with_name
                } else {
                    with_name.push(last.parent@)
                };
                assert(final_names.contains(s)) by {
                    let j = choose|j: int| 0 <= j < with_name.len() && with_name[j] == s;
                    assert(final_names[j] == s);
                }
            } else {
                let rest = spec_task_names(insts.drop_last());
                let with_name = if rest.contains(last.name@) {
                    rest
                } else {
                    rest.push(last.name@)
                };
                let final_names = if with_name.contains(last.parent@) {
                    with_name
                } else {
                    with_name.push(last.parent@)
                };
                if last.name@ == s {
                    assert(with_name.contains(s)) by {
                        if !rest.contains(last.name@) {
                            assert(with_name.last() == s);
                        }
                    }
                    assert(final_names.contains(s)) by {
                        let j = choose|j: int| 0 <= j < with_name.len() && with_name[j] == s;
                        assert(final_names[j] == s);
                    }
                } else {
                    assert(last.parent@ == s);
                    if !with_name.contains(last.parent@) {
                        assert(final_names.last() == s);
                    }
                }
            }
        }
    }
}

/// The names listed by `spec_task_names` are pairwise distinct.
pub proof fn lemma_task_names_distinct(insts: Seq<Instruction>)
    ensures
        forall|i: int, j: int|
            0 <= i < j < spec_task_names(insts).len() ==> #[trigger] spec_task_names(
                insts,
            )[i] != #[trigger] spec_task_names(insts)[j],
    decreases insts.len(),
{
    if insts.len() > 0 {
        lemma_task_names_distinct(insts.drop_last());
        let rest = spec_task_names(insts.drop_last());
        let last = insts.last();
        let with_name = if rest.contains(last.name@) {
            rest
        } else {
            rest.push(last.name@)
        };
        assert forall|i: int, j: int| 0 <= i < j < with_name.len() implies #[trigger] with_name[i]
            != #[trigger] with_name[j] by {
            if j < rest.len() {
            } else {
                assert(with_name[j] == last.name@);
                assert(with_name[i] == rest[i]);
                assert(!rest.contains(last.name@));
            }
        }
        let final_names = if with_name.contains(last.parent@) {
            with_name
        } else {
            with_name.push(last.parent@)
        };
        assert forall|i: int, j: int|
            0 <= i < j < final_names.len() implies #[trigger] final_names[i]
            != #[trigger] final_names[j] by {
            if j < with_name.len() {
            } else {
                assert(final_names[j] == last.parent@);
                assert(final_names[i] == with_name[i]);
                assert(!with_name.contains(last.parent@));
            }
        }
    }
}

/// Whether `v` holds a string whose characters equal `s`.
fn contains_name(v: &Vec<String>, s: &str) -> (r: bool)
    ensures
        r == exists|k: int| 0 <= k < v@.len() && (#[trigger] v@[k])@ == s@,
{
    let mut k: usize = 0;
    while k < v.len()
        invariant
            k <= v@.len(),
            forall|j: int| 0 <= j < k ==> (#[trigger] v@[j])@ != s@,
        decreases v@.len() - k,
    {
        if str_eq(v[k].as_str(), s) {
            return true;
        }
        k = k + 1;
    }
    false
}

/// The index of the string in `v` whose characters equal `s`.
fn index_of_name(v: &Vec<String>, s: &str) -> (r: usize)
    requires
        exists|k: int| 0 <= k < v@.len() && (#[trigger] v@[k])@ == s@,
    ensures
        r < v@.len(),
        v@[r as int]@ == s@,
{
    let mut k: usize = 0;
    while k < v.len()
        invariant
            k <= v@.len(),
            exists|j: int| k <= j < v@.len() && (#[trigger] v@[j])@ == s@,
        decreases v@.len() - k,
    {
        if str_eq(v[k].as_str(), s) {
            return k;
        }
        k = k + 1;
    }
    proof {
        assert(false);
    }
    0
}

impl TaskGraph {
    /// Builds the task graph for a list of precedence instructions.  The
    /// task set is the union of all names mentioned; for every instruction
    /// there is an edge from its parent task to its named task.
    pub fn build(insts: &Vec<Instruction>) -> (g: TaskGraph)
        ensures
            g.wf(),
            g.names@.map_values(|s: String| s@) == spec_task_names(insts@),
            forall|p: usize, c: usize|
                p < g.task_count() && c < g.task_count()
                    ==> (#[trigger] g.has_edge(p, c) <==> exists|k: int|
                        0 <= k < insts@.len() && (#[trigger] insts@[k]).parent@ == g.name_at(p)
                            && insts@[k].name@ == g.name_at(c)),
    {
        let mut names: Vec<String> = Vec::new();
        let mut i: usize = 0;
        while i < insts.len()
            invariant
                i <= insts@.len(),
                names@.map_values(|s: String| s@) == spec_task_names(insts@.take(i as int)),
            decreases insts@.len() - i,
        {
            proof {
                assert(insts@.take(i + 1).drop_last() =~= insts@.take(i as int));
                assert(insts@.take(i + 1).last() == insts@[i as int]);
            }
            let ghost old_names = names@;
            if !contains_name(&names, insts[i].name.as_str()) {
                proof {
                    assert(!spec_task_names(insts@.take(i as int)).contains(insts@[i as int].name@))
                        by {
                        if spec_task_names(insts@.take(i as int)).contains(
                            insts@[i as int].name@,
                        ) {
                            let mapped = old_names.map_values(|s: String| s@);
                            let j = choose|j: int|
                                0 <= j < mapped.len() && (#[trigger] mapped[j])
                                    == insts@[i as int].name@;
                            assert(old_names[j]@ == insts@[i as int].name@);
                        }
                    }
                }
                names.push(insts[i].name.clone());
            } else {
                proof {
                    let k = choose|k: int|
                        0 <= k < old_names.len() && (#[trigger] old_names[k])@
                            == insts@[i as int].name@;
                    assert(old_names.map_values(|s: String| s@)[k] == insts@[i as int].name@);
                }
            }
            proof {
                let mapped = names@.map_values(|s: String| s@);
                let rest = spec_task_names(insts@.take(i as int));
                let with_name = if rest.contains(insts@[i as int].name@) {
                    rest
                } else {
                    rest.push(insts@[i as int].name@)
                };
                assert(mapped =~= with_name);
            }
            let ghost mid_names = names@;
            if !contains_name(&names, insts[i].parent.as_str()) {
                proof {
                    let mapped = mid_names.map_values(|s: String| s@);
                    if mapped.contains(insts@[i as int].parent@) {
                        let j = choose|j: int|
                            0 <= j < mapped.len() && mapped[j] == insts@[i as int].parent@;
                        assert(mid_names[j]@ == insts@[i as int].parent@);
                    }
                }
                names.push(insts[i].parent.clone());
            } else {
                proof {
                    let k = choose|k: int|
                        0 <= k < mid_names.len() && (#[trigger] mid_names[k])@
                            == insts@[i as int].parent@;
                    assert(mid_names.map_values(|s: String| s@)[k] == insts@[i as int].parent@);
                }
            }
            proof {
                let mapped = names@.map_values(|s: String| s@);
                assert(mapped =~= spec_task_names(insts@.take(i + 1)));
            }
            i = i + 1;
        }
        proof {
            assert(insts@.take(insts@.len() as int) =~= insts@);
            lemma_task_names_distinct(insts@);
        }
        let n = names.len();
        let mut succs: Vec<Vec<usize>> = Vec::new();
        let mut preds: Vec<Vec<usize>> = Vec::new();
        let mut j: usize = 0;
        while j < n
            invariant
                succs@.len() == j <= n,
                preds@.len() == j,
                forall|p: int| 0 <= p < j ==> (#[trigger] succs@[p])@.len() == 0,
                forall|c: int| 0 <= c < j ==> (#[trigger] preds@[c])@.len() == 0,
            decreases n - j,
        {
            succs.push(Vec::new());
            preds.push(Vec::new());
            j = j + 1;
        }
        let ghost names_view = names@.map_values(|s: String| s@);
        let mut k: usize = 0;
        while k < insts.len()
            invariant
                k <= insts@.len(),
                names@.map_values(|s: String| s@) == names_view,
                names_view == spec_task_names(insts@),
                forall|i2: int, j2: int|
                    0 <= i2 < j2 < names_view.len() ==> #[trigger] names_view[i2]
                        != #[trigger] names_view[j2],
                succs@.len() == names@.len(),
                preds@.len() == names@.len(),
                forall|p: int, q: int|
                    0 <= p < succs@.len() && 0 <= q < succs@[p]@.len()
                        ==> ((#[trigger] succs@[p]@[q]) as int) < names@.len(),
                forall|c: int, q: int|
                    0 <= c < preds@.len() && 0 <= q < preds@[c]@.len()
                        ==> ((#[trigger] preds@[c]@[q]) as int) < names@.len(),
                forall|p: usize, c: usize|
                    (p as int) < names@.len() && (c as int) < names@.len()
                        ==> (succs@[p as int]@.contains(c) == #[trigger] preds@[c as int]@.contains(
                        p,
                    )),
                forall|p: usize, c: usize|
                    (p as int) < names@.len() && (c as int) < names@.len()
                        ==> (#[trigger] succs@[p as int]@.contains(c) <==> exists|m: int|
                            0 <= m < k && (#[trigger] insts@[m]).parent@ == names_view[p as int]
                                && insts@[m].name@ == names_view[c as int]),
            decreases insts@.len() - k,
        {
            proof {
                lemma_task_names_membership(insts@, insts@[k as int].parent@);
                lemma_task_names_membership(insts@, insts@[k as int].name@);
                let jp = choose|j2: int|
                    0 <= j2 < names_view.len() && names_view[j2] == insts@[k as int].parent@;
                assert(names@[jp]@ == insts@[k as int].parent@);
                let jc = choose|j2: int|
                    0 <= j2 < names_view.len() && names_view[j2] == insts@[k as int].name@;
                assert(names@[jc]@ == insts@[k as int].name@);
            }
            let p = index_of_name(&names, insts[k].parent.as_str());
            let c = index_of_name(&names, insts[k].name.as_str());
            proof {
                assert(names_view[p as int] == insts@[k as int].parent@);
                assert(names_view[c as int] == insts@[k as int].name@);
            }
            let ghost old_succs = succs@;
            let ghost old_preds = preds@;
            succs[p].push(c);
            preds[c].push(p);
            proof {
                assert(succs@.len() == old_succs.len());
                assert(forall|q: int|
                    0 <= q < succs@.len() && q != p ==> #[trigger] succs@[q] == old_succs[q]);
                assert(succs@[p as int]@ =~= old_succs[p as int]@.push(c));
                assert(preds@.len() == old_preds.len());
                assert(forall|q: int|
                    0 <= q < preds@.len() && q != c ==> #[trigger] preds@[q] == old_preds[q]);
                assert(preds@[c as int]@ =~= old_preds[c as int]@.push(p));
                assert forall|p2: usize, c2: usize|
                    (p2 as int) < names@.len() && (c2 as int) < names@.len() implies (
                succs@[p2 as int]@.contains(c2) == #[trigger] preds@[c2 as int]@.contains(
                    p2,
                )) by {
                    lemma_push_contains(old_succs[p as int]@, c, c2);
                    lemma_push_contains(old_preds[c as int]@, p, p2);
                }
                assert forall|p2: usize, c2: usize|
                    (p2 as int) < names@.len() && (c2 as int) < names@.len() implies (
                #[trigger] succs@[p2 as int]@.contains(c2) <==> exists|m: int|
                    0 <= m < k + 1 && (#[trigger] insts@[m]).parent@ == names_view[p2 as int]
                        && insts@[m].name@ == names_view[c2 as int]) by {
                    lemma_push_contains(old_succs[p as int]@, c, c2);
                    if succs@[p2 as int]@.contains(c2) {
                        if p2 == p && c2 == c && !old_succs[p as int]@.contains(c) {
                            assert(insts@[k as int].parent@ == names_view[p2 as int]
                                && insts@[k as int].name@ == names_view[c2 as int]);
                        } else {
                            assert(old_succs[p2 as int]@.contains(c2));
                        }
                    }
                    if exists|m: int|
                        0 <= m < k + 1 && (#[trigger] insts@[m]).parent@ == names_view[p2 as int]
                            && insts@[m].name@ == names_view[c2 as int] {
                        let m = choose|m: int|
                            0 <= m < k + 1 && (#[trigger] insts@[m]).parent@
                                == names_view[p2 as int] && insts@[m].name@
                                == names_view[c2 as int];
                        if m < k {
                            assert(old_succs[p2 as int]@.contains(c2));
                            assert(succs@[p2 as int]@.contains(c2));
                        } else {
                            assert(names_view[p2 as int] == names_view[p as int]);
                            assert(names_view[c2 as int] == names_view[c as int]);
                            assert(p2 == p && c2 == c) by {
                                if p2 != p {
                                    if p2 < p {
                                        assert(names_view[p2 as int] != names_view[p as int]);
                                    } else {
                                        assert(names_view[p as int] != names_view[p2 as int]);
                                    }
                                }
                                if c2 != c {
                                    if c2 < c {
                                        assert(names_view[c2 as int] != names_view[c as int]);
                                    } else {
                                        assert(names_view[c as int] != names_view[c2 as int]);
                                    }
                                }
                            }
                            assert(succs@[p as int]@.last() == c);
                        }
                    }
                }
            }
            k = k + 1;
        }
        proof {
            assert(insts@.take(insts@.len() as int) =~= insts@);
        }
        let g = TaskGraph { names, succs, preds };
        proof {
            assert forall|i2: usize, j2: usize| i2 < j2 < g.task_count() implies #[trigger] g.name_at(
                i2,
            ) != #[trigger] g.name_at(j2) by {
                assert(names_view[i2 as int] != names_view[j2 as int]);
            }
        }
        g
    }
}

/// The availability frontier: the indices of tasks whose predecessors have
/// all completed and which have not yet been started.
pub struct Frontier {
    pub tasks: Vec<usize>,
}

impl Frontier {
    /// Whether task `t` is currently in the frontier.
    pub open spec fn contains_task(self, t: usize) -> bool {
        self.tasks@.contains(t)
    }

    /// A task enters the frontier at most once.
    pub open spec fn wf(self) -> bool {
        self.tasks@.no_duplicates()
    }

    /// All members are task indices below `n`.
    pub open spec fn in_range(self, n: nat) -> bool {
        forall|i: int| 0 <= i < self.tasks@.len() ==> ((#[trigger] self.tasks@[i]) as nat) < n
    }

    pub fn new() -> (r: Frontier)
        ensures
            r.wf(),
            r.tasks@.len() == 0,
            forall|t: usize| !r.contains_task(t),
    {
        Frontier { tasks: Vec::new() }
    }

    pub fn is_empty(&self) -> (r: bool)
        ensures
            r == (self.tasks@.len() == 0),
    {
        self.tasks.len() == 0
    }

    /// Membership test.
    pub fn contains(&self, t: usize) -> (r: bool)
        ensures
            r == self.contains_task(t),
    {
        let mut k: usize = 0;
        while k < self.tasks.len()
            invariant
                k <= self.tasks@.len(),
                forall|j: int| 0 <= j < k ==> self.tasks@[j] != t,
            decreases self.tasks@.len() - k,
        {
            if self.tasks[k] == t {
                return true;
            }
            k = k + 1;
        }
        false
    }

    /// Adds a task that is not yet present.
    pub fn insert(&mut self, t: usize)
        requires
            !old(self).contains_task(t),
        ensures
            final(self).tasks@ == old(self).tasks@.push(t),
            old(self).wf() ==> final(self).wf(),
            forall|u: usize|
                final(self).contains_task(u) <==> (old(self).contains_task(u) || u == t),
    {
        proof {
            lemma_push_contains(self.tasks@, t, t);
            assert forall|u: usize| #[trigger] self.tasks@.push(t).contains(u) implies (
            self.tasks@.contains(u) || u == t) by {
                lemma_push_contains(self.tasks@, t, u);
            }
            assert forall|u: usize|
                self.tasks@.contains(u) || u == t implies #[trigger] self.tasks@.push(t).contains(
                u,
            ) by {
                lemma_push_contains(self.tasks@, t, u);
            }
        }
        self.tasks.push(t);
    }

    /// The position of the member whose task name is lexicographically
    /// smallest.
    fn min_position(&self, g: &TaskGraph) -> (r: usize)
        requires
            g.wf(),
            self.tasks@.len() > 0,
            self.in_range(g.task_count()),
        ensures
            r < self.tasks@.len(),
            forall|j: int|
                0 <= j < self.tasks@.len() && j != r ==> lex_lt(
                    g.name_at(self.tasks@[r as int]),
                    g.name_at(#[trigger] self.tasks@[j]),
                ) || g.name_at(self.tasks@[r as int]) == g.name_at(self.tasks@[j]),
    {
        let mut best: usize = 0;
        let mut k: usize = 1;
        while k < self.tasks.len()
            invariant
                best < k <= self.tasks@.len(),
                self.in_range(g.task_count()),
                g.wf(),
                forall|j: int|
                    0 <= j < k && j != best ==> lex_lt(
                        g.name_at(self.tasks@[best as int]),
                        g.name_at(#[trigger] self.tasks@[j]),
                    ) || g.name_at(self.tasks@[best as int]) == g.name_at(self.tasks@[j]),
            decreases self.tasks@.len() - k,
        {
            let tb = self.tasks[best];
            let tk = self.tasks[k];
            if str_lt(g.name(tk).as_str(), g.name(tb).as_str()) {
                proof {
                    assert forall|j: int| 0 <= j < k + 1 && j != k implies lex_lt(
                        g.name_at(self.tasks@[k as int]),
                        g.name_at(#[trigger] self.tasks@[j]),
                    ) || g.name_at(self.tasks@[k as int]) == g.name_at(self.tasks@[j]) by {
                        if j != best {
                            if g.name_at(self.tasks@[best as int]) == g.name_at(self.tasks@[j]) {
                            } else {
                                lemma_lex_trans(
                                    g.name_at(self.tasks@[k as int]),
                                    g.name_at(self.tasks@[best as int]),
                                    g.name_at(self.tasks@[j]),
                                );
                            }
                        }
                    }
                }
                best = k;
            } else {
                proof {
                    lemma_lex_connex(
                        g.name_at(self.tasks@[k as int]),
                        g.name_at(self.tasks@[best as int]),
                    );
                }
            }
            k = k + 1;
        }
        best
    }

    /// Returns, without removing it, the member whose name is smallest.
    pub fn peek_smallest(&self, g: &TaskGraph) -> (t: usize)
        requires
            g.wf(),
            self.wf(),
            self.tasks@.len() > 0,
            self.in_range(g.task_count()),
        ensures
            self.contains_task(t),
            (t as nat) < g.task_count(),
            forall|u: usize|
                self.contains_task(u) && u != t ==> lex_lt(g.name_at(t), g.name_at(u)),
    {
        let r = self.min_position(g);
        let t = self.tasks[r];
        proof {
            self.lemma_min_is_strict(*g, r);
        }
        t
    }

    /// Removes and returns the member whose name is smallest.
    pub fn pop_smallest(&mut self, g: &TaskGraph) -> (t: usize)
        requires
            g.wf(),
            old(self).wf(),
            old(self).tasks@.len() > 0,
            old(self).in_range(g.task_count()),
        ensures
            old(self).contains_task(t),
            (t as nat) < g.task_count(),
            forall|u: usize|
                old(self).contains_task(u) && u != t ==> lex_lt(g.name_at(t), g.name_at(u)),
            final(self).wf(),
            final(self).in_range(g.task_count()),
            final(self).tasks@.len() == old(self).tasks@.len() - 1,
            forall|u: usize|
                final(self).contains_task(u) <==> (old(self).contains_task(u) && u != t),
    {
        let r = self.min_position(g);
        proof {
            self.lemma_min_is_strict(*g, r);
        }
        let ghost pre = self.tasks@;
        let t = self.tasks.remove(r);
        proof {
            let post = self.tasks@;
            assert(post =~= pre.subrange(0, r as int) + pre.subrange(
                r as int + 1,
                pre.len() as int,
            ));
            assert forall|u: usize| #[trigger] post.contains(u) implies (pre.contains(u) && u
                != t) by {
                let j = choose|j: int| 0 <= j < post.len() && post[j] == u;
                if j < r {
                    assert(pre[j] == u);
                    if u == t {
                        assert(pre[r as int] == pre[j]);
                        assert(false);
                    }
                } else {
                    assert(pre[j + 1] == u);
                    if u == t {
                        assert(pre[r as int] == pre[j + 1]);
                        assert(false);
                    }
                }
            }
            assert forall|u: usize| pre.contains(u) && u != t implies #[trigger] post.contains(
                u,
            ) by {
                let j = choose|j: int| 0 <= j < pre.len() && pre[j] == u;
                if j < r {
                    assert(post[j] == u);
                } else {
                    assert(j != r);
                    assert(post[j - 1] == u);
                }
            }
            assert(post.no_duplicates()) by {
                assert forall|i: int, j: int| 0 <= i < j < post.len() implies post[i] != post[j] by {
                    let pi = if i < r {
                        i
                    } else {
                        i + 1
                    };
                    let pj = if j < r {
                        j
                    } else {
                        j + 1
                    };
                    assert(post[i] == pre[pi]);
                    assert(post[j] == pre[pj]);
                }
            }
            assert forall|i: int| 0 <= i < post.len() implies ((#[trigger] post[i]) as nat)
                < g.task_count() by {
                let pi = if i < r {
                    i
                } else {
                    i + 1
                };
                assert(post[i] == pre[pi]);
            }
        }
        t
    }

    /// With distinct task names, the minimum at a position is strict against
    /// every other member.
    proof fn lemma_min_is_strict(self, g: TaskGraph, r: usize)
        requires
            g.wf(),
            self.wf(),
            self.in_range(g.task_count()),
            r < self.tasks@.len(),
            forall|j: int|
                0 <= j < self.tasks@.len() && j != r ==> lex_lt(
                    g.name_at(self.tasks@[r as int]),
                    g.name_at(#[trigger] self.tasks@[j]),
                ) || g.name_at(self.tasks@[r as int]) == g.name_at(self.tasks@[j]),
        ensures
            forall|u: usize|
                self.contains_task(u) && u != self.tasks@[r as int] ==> lex_lt(
                    g.name_at(self.tasks@[r as int]),
                    g.name_at(u),
                ),
    {
        let t = self.tasks@[r as int];
        assert forall|u: usize| self.contains_task(u) && u != t implies lex_lt(
            g.name_at(t),
            g.name_at(u),
        ) by {
            let j = choose|j: int| 0 <= j < self.tasks@.len() && self.tasks@[j] == u;
            assert(j != r);
            if g.name_at(t) == g.name_at(u) {
                if t < u {
                    assert(g.name_at(t) != g.name_at(u));
                } else {
                    assert(g.name_at(u) != g.name_at(t));
                }
            }
        }
    }
}

impl TaskGraph {
    /// The frontier of tasks with no predecessors at all: those that are
    /// ready before anything has completed.
    pub fn initial_frontier(&self) -> (f: Frontier)
        requires
            self.wf(),
        ensures
            f.wf(),
            f.in_range(self.task_count()),
            forall|t: usize| f.contains_task(t) <==> ready(*self, Seq::<usize>::empty(), t),
    {
        let n = self.len();
        let mut f = Frontier::new();
        let mut i: usize = 0;
        while i < n
            invariant
                self.wf(),
                n == self.task_count(),
                i <= n,
                f.wf(),
                f.in_range(self.task_count()),
                forall|t: usize|
                    f.contains_task(t) <==> ((t as nat) < i && ready(
                        *self,
                        Seq::<usize>::empty(),
                        t,
                    )),
            decreases n - i,
        {
            if self.predecessors(i).len() == 0 {
                proof {
                    assert(ready(*self, Seq::<usize>::empty(), i)) by {
                        assert forall|p: usize| #[trigger] self.has_edge(p, i) implies Seq::<
                            usize,
                        >::empty().contains(p) by {
                            assert(self.preds@[i as int]@.contains(p));
                            assert(false);
                        }
                    }
                }
                f.insert(i);
            } else {
                proof {
                    let p = self.preds@[i as int]@[0];
                    assert(self.preds@[i as int]@.contains(p));
                    assert(self.has_edge(p, i));
                    assert(!ready(*self, Seq::<usize>::empty(), i));
                }
            }
            i = i + 1;
        }
        f
    }
}

/// The error reported when a walk or simulation cannot finish: the frontier
/// runs dry while unvisited tasks remain, which happens exactly when the
/// remaining tasks sit on a cycle or behind one.
#[derive(Clone, Copy, Debug, PartialEq, Eq, Structural)]
pub enum ScheduleError {
    Stalled,
}

/// Task `t` can be started: it exists, it is neither completed nor excluded
/// by `taken`, and every predecessor has completed.
pub open spec fn avail(g: TaskGraph, done: Seq<usize>, taken: Set<usize>, t: usize) -> bool {
    &&& (t as nat) < g.task_count()
    &&& !done.contains(t)
    &&& !taken.contains(t)
    &&& forall|p: usize| #[trigger] g.has_edge(p, t) ==> done.contains(p)
}

/// Task `t` is ready: all predecessors completed, itself not yet completed.
pub open spec fn ready(g: TaskGraph, done: Seq<usize>, t: usize) -> bool {
    avail(g, done, Set::empty(), t)
}

/// Task `t` is the available task with the lexicographically smallest name.
pub open spec fn min_avail(g: TaskGraph, done: Seq<usize>, taken: Set<usize>, t: usize) -> bool {
    avail(g, done, taken, t) && forall|u: usize|
        #[trigger] avail(g, done, taken, u) && u != t ==> lex_lt(g.name_at(t), g.name_at(u))
}

/// There is at most one minimal available task.
pub proof fn lemma_min_avail_unique(
    g: TaskGraph,
    done: Seq<usize>,
    taken: Set<usize>,
    t1: usize,
    t2: usize,
)
    requires
        min_avail(g, done, taken, t1),
        min_avail(g, done, taken, t2),
    ensures
        t1 == t2,
{
    if t1 != t2 {
        assert(lex_lt(g.name_at(t1), g.name_at(t2)));
        assert(lex_lt(g.name_at(t2), g.name_at(t1)));
        lemma_lex_asym(g.name_at(t1), g.name_at(t2));
    }
}

/// The serial completion order continued from the history `done`: while an
/// incomplete history has a ready task, the lexicographically smallest ready
/// task is taken next.
pub open spec fn serial_order_rec(g: TaskGraph, done: Seq<usize>) -> Seq<usize>
    decreases g.task_count() - done.len(),
{
    if done.len() < g.task_count() && (exists|t: usize| min_avail(g, done, Set::empty(), t)) {
        let t = choose|t: usize| min_avail(g, done, Set::empty(), t);
        serial_order_rec(g, done.push(t))
    } else {
        done
    }
}

/// The serial completion order of the whole graph.
pub open spec fn serial_order(g: TaskGraph) -> Seq<usize> {
    serial_order_rec(g, Seq::empty())
}

/// The names of the listed tasks, concatenated in order.
pub open spec fn concat_names(g: TaskGraph, ord: Seq<usize>) -> Seq<char>
    decreases ord.len(),
{
    if ord.len() == 0 {
        Seq::empty()
    } else {
        concat_names(g, ord.drop_last()) + g.name_at(ord.last())
    }
}

/// A sequence of distinct values below `n` has at most `n` entries.
proof fn lemma_distinct_bounded_len(s: Seq<usize>, n: nat)
    requires
        s.no_duplicates(),
        forall|i: int| 0 <= i < s.len() ==> ((#[trigger] s[i]) as nat) < n,
    ensures
        s.len() <= n,
{
    let si = s.map_values(|x: usize| x as int);
    assert(si.no_duplicates()) by {
        assert forall|i: int, j: int| 0 <= i < j < si.len() implies si[i] != si[j] by {
            assert(s[i] != s[j]);
        }
    }
    si.unique_seq_to_set();
    assert(si.to_set().subset_of(vstd::set_lib::set_int_range(0, n as int))) by {
        assert forall|x: int| #[trigger] si.to_set().contains(x) implies 0 <= x < n by {
            let j = choose|j: int| 0 <= j < si.len() && si[j] == x;
            assert((s[j] as nat) < n);
        }
    }
    vstd::set_lib::lemma_int_range(0, n as int);
    vstd::set_lib::lemma_len_subset(si.to_set(), vstd::set_lib::set_int_range(0, n as int));
}

/// A sequence of `n` distinct values below `n` holds every value below `n`.
proof fn lemma_distinct_bounded_covers(s: Seq<usize>, n: nat, t: usize)
    requires
        s.no_duplicates(),
        forall|i: int| 0 <= i < s.len() ==> ((#[trigger] s[i]) as nat) < n,
        s.len() == n,
        (t as nat) < n,
    ensures
        s.contains(t),
{
    if !s.contains(t) {
        lemma_distinct_bounded_len(s.push(t), n);
        assert(s.push(t).no_duplicates()) by {
            assert forall|i: int, j: int| 0 <= i < j < s.push(t).len() implies s.push(t)[i]
                != s.push(t)[j] by {
                if j < s.len() {
                    assert(s.push(t)[i] == s[i] && s.push(t)[j] == s[j]);
                } else {
                    assert(s.push(t)[j] == t);
                    assert(s.push(t)[i] == s[i]);
                    assert(s.contains(s[i]));
                }
            }
        }
        assert(forall|i: int|
            0 <= i < s.push(t).len() ==> ((#[trigger] s.push(t)[i]) as nat) < n);
        assert(false);
    }
}

/// Walks the graph serially: repeatedly completes the ready task with the
/// lexicographically smallest name and appends its name to the output.  The
/// walk succeeds exactly when it can complete every task; a graph whose
/// remaining tasks all wait on a cycle stalls instead of looping forever.
pub fn serial_walk(g: &TaskGraph) -> (r: Result<String, ScheduleError>)
    requires
        g.wf(),
    ensures
        r is Ok <==> serial_order(*g).len() == g.task_count(),
        r matches Ok(s) ==> s@ == concat_names(*g, serial_order(*g)),
        r matches Err(e) ==> e == ScheduleError::Stalled,
{
    let n = g.len();
    let mut frontier = g.initial_frontier();
    let mut visited: Vec<bool> = vec![false; n];
    let mut out = String::new();
    let mut completed: usize = 0;
    let ghost mut done: Seq<usize> = Seq::empty();
    while !frontier.is_empty()
        invariant
            g.wf(),
            n == g.task_count(),
            frontier.wf(),
            frontier.in_range(g.task_count()),
            visited@.len() == n,
            completed == done.len(),
            done.len() <= n,
            done.no_duplicates(),
            forall|q: int| 0 <= q < done.len() ==> ((#[trigger] done[q]) as nat) < n,
            forall|t: usize| (t as nat) < n ==> (visited@[t as int] == done.contains(t)),
            forall|t: usize| frontier.contains_task(t) <==> ready(*g, done, t),
            serial_order_rec(*g, done) == serial_order(*g),
            out@ == concat_names(*g, done),
        decreases n - completed,
    {
        let ghost prev = done;
        let ghost fsnap = frontier;
        let t = frontier.pop_smallest(g);
        proof {
            assert(ready(*g, prev, t));
            assert forall|u: usize| #[trigger] avail(*g, prev, Set::empty(), u) && u
                != t implies lex_lt(g.name_at(t), g.name_at(u)) by {
                assert(ready(*g, prev, u));
                assert(fsnap.contains_task(u));
            }
            assert(min_avail(*g, prev, Set::empty(), t));
            assert(prev.len() < n) by {
                lemma_distinct_bounded_len(prev.push(t), n as nat);
                assert(prev.push(t).no_duplicates()) by {
                    assert forall|a: int, b: int| 0 <= a < b < prev.push(t).len() implies prev.push(
                        t,
                    )[a] != prev.push(t)[b] by {
                        if b < prev.len() {
                            assert(prev.push(t)[a] == prev[a] && prev.push(t)[b] == prev[b]);
                        } else {
                            assert(prev.push(t)[b] == t);
                            assert(prev.push(t)[a] == prev[a]);
                            assert(prev.contains(prev[a]));
                        }
                    }
                }
            }
            let chosen = choose|u: usize| min_avail(*g, prev, Set::empty(), u);
            lemma_min_avail_unique(*g, prev, Set::empty(), t, chosen);
            assert(serial_order_rec(*g, prev) == serial_order_rec(*g, prev.push(t)));
            done = prev.push(t);
            assert(done.no_duplicates()) by {
                assert forall|a: int, b: int| 0 <= a < b < done.len() implies done[a] != done[b] by {
                    if b < prev.len() {
                        assert(done[a] == prev[a] && done[b] == prev[b]);
                    } else {
                        assert(done[b] == t);
                        assert(done[a] == prev[a]);
                        assert(prev.contains(prev[a]));
                    }
                }
            }
            assert forall|u: usize| #[trigger] done.contains(u) implies (prev.contains(u) || u
                == t) by {
                let j = choose|j: int| 0 <= j < done.len() && done[j] == u;
                if j < prev.len() {
                    assert(prev[j] == u);
                }
            }
            assert forall|u: usize| prev.contains(u) implies #[trigger] done.contains(u) by {
                let j = choose|j: int| 0 <= j < prev.len() && prev[j] == u;
                assert(done[j] == u);
            }
            assert(done.contains(t)) by {
                assert(done.last() == t);
            }
        }
        visited[t] = true;
        out.append(g.name(t).as_str());
        proof {
            assert(done.drop_last() =~= prev);
            assert(out@ == concat_names(*g, done));
        }
        completed = completed + 1;
        let succ_list = g.successors(t);
        let mut j: usize = 0;
        while j < succ_list.len()
            invariant
                g.wf(),
                n == g.task_count(),
                (t as nat) < n,
                succ_list@ == g.succs@[t as int]@,
                j <= succ_list@.len(),
                frontier.wf(),
                frontier.in_range(g.task_count()),
                visited@.len() == n,
                done.no_duplicates(),
                forall|q: int| 0 <= q < done.len() ==> ((#[trigger] done[q]) as nat) < n,
                done.contains(t),
                forall|u: usize| #[trigger] done.contains(u) <==> (prev.contains(u) || u == t),
                forall|u: usize| (u as nat) < n ==> (visited@[u as int] == done.contains(u)),
                forall|u: usize|
                    frontier.contains_task(u) <==> (ready(*g, done, u) && ((ready(*g, prev, u) && u
                        != t) || succ_list@.take(j as int).contains(u))),
            decreases succ_list@.len() - j,
        {
            let c = succ_list[j];
            proof {
                assert(g.succs@[t as int]@.contains(c)) by {
                    assert(g.succs@[t as int]@[j as int] == c);
                }
                assert(g.has_edge(t, c));
                assert((c as nat) < n);
            }
            let mut all_done = true;
            let pred_list = g.predecessors(c);
            let mut q: usize = 0;
            while q < pred_list.len() && all_done
                invariant
                    g.wf(),
                    n == g.task_count(),
                    (c as nat) < n,
                    pred_list@ == g.preds@[c as int]@,
                    q <= pred_list@.len(),
                    visited@.len() == n,
                    forall|u: usize| (u as nat) < n ==> (visited@[u as int] == done.contains(u)),
                    all_done ==> forall|z: int|
                        0 <= z < q ==> done.contains(#[trigger] pred_list@[z]),
                    !all_done ==> exists|z: int|
                        0 <= z < pred_list@.len() && !done.contains(#[trigger] pred_list@[z]),
                decreases pred_list@.len() - q,
            {
                proof {
                    assert(((pred_list@[q as int]) as nat) < n) by {
                        assert(g.preds@[c as int]@[q as int] < g.task_count());
                    }
                }
                if !visited[pred_list[q]] {
                    all_done = false;
                }
                q = q + 1;
            }
            proof {
                if all_done {
                    assert(forall|z: int|
                        0 <= z < pred_list@.len() ==> done.contains(#[trigger] pred_list@[z]));
                }
            }
            let c_ready = all_done && !visited[c];
            proof {
                if c_ready {
                    assert(ready(*g, done, c)) by {
                        assert forall|p: usize| #[trigger] g.has_edge(p, c) implies done.contains(
                            p,
                        ) by {
                            assert(g.preds@[c as int]@.contains(p));
                            let z = choose|z: int|
                                0 <= z < g.preds@[c as int]@.len() && g.preds@[c as int]@[z] == p;
                            assert(done.contains(pred_list@[z]));
                        }
                    }
                } else {
                    assert(!ready(*g, done, c)) by {
                        if !all_done {
                            let z = choose|z: int|
                                0 <= z < pred_list@.len() && !done.contains(
                                    #[trigger] pred_list@[z],
                                );
                            assert(g.preds@[c as int]@.contains(pred_list@[z]));
                            assert(g.has_edge(pred_list@[z], c));
                        } else {
                            assert(done.contains(c));
                        }
                    }
                }
            }
            if c_ready && !frontier.contains(c) {
                frontier.insert(c);
            }
            proof {
                assert(succ_list@.take(j + 1).drop_last() =~= succ_list@.take(j as int));
                assert(succ_list@.take(j + 1).last() == c);
                assert forall|u: usize| #[trigger] succ_list@.take(j + 1).contains(u) implies (
                succ_list@.take(j as int).contains(u) || u == c) by {
                    let z = choose|z: int|
                        0 <= z < succ_list@.take(j + 1).len() && (#[trigger] succ_list@.take(
                            j + 1,
                        )[z]) == u;
                    if z < j {
                        assert(succ_list@.take(j as int)[z] == u);
                    }
                }
                assert forall|u: usize|
                    succ_list@.take(j as int).contains(u)
                        || u == c implies #[trigger] succ_list@.take(j + 1).contains(u) by {
                    if u == c {
                        assert(succ_list@.take(j + 1)[j as int] == c);
                    } else {
                        let z = choose|z: int|
                            0 <= z < succ_list@.take(j as int).len() && succ_list@.take(
                                j as int,
                            )[z] == u;
                        assert(succ_list@.take(j + 1)[z] == u);
                    }
                }
            }
            j = j + 1;
        }
        proof {
            assert(succ_list@.take(succ_list@.len() as int) =~= succ_list@);
            assert forall|u: usize| ready(*g, done, u) implies #[trigger] frontier.contains_task(
                u,
            ) by {
                if !(ready(*g, prev, u) && u != t) {
                    assert(u != t);
                    assert(!prev.contains(u));
                    if !ready(*g, prev, u) {
                        let p = choose|p: usize| #[trigger] g.has_edge(p, u) && !prev.contains(p);
                        assert(done.contains(p));
                        assert(p == t);
                        assert(g.succs@[t as int]@.contains(u));
                    }
                }
            }
        }
    }
    proof {
        assert(serial_order_rec(*g, done) == done) by {
            if done.len() < n && (exists|t: usize| min_avail(*g, done, Set::empty(), t)) {
                let t = choose|t: usize| min_avail(*g, done, Set::empty(), t);
                assert(ready(*g, done, t));
                assert(frontier.contains_task(t));
                assert(frontier.tasks@.len() > 0) by {
                    assert(frontier.tasks@.contains(t));
                }
                assert(false);
            }
        }
    }
    if completed == n {
        Ok(out)
    } else {
        Err(ScheduleError::Stalled)
    }
}

/// `ord` enumerates every task exactly once, and every edge points from an
/// earlier to a later entry.
pub open spec fn is_complete_topo(g: TaskGraph, ord: Seq<usize>) -> bool {
    &&& ord.no_duplicates()
    &&& ord.len() == g.task_count()
    &&& forall|q: int| 0 <= q < ord.len() ==> ((#[trigger] ord[q]) as nat) < g.task_count()
    &&& forall|a: int, b: int|
        0 <= a < ord.len() && 0 <= b < ord.len() && #[trigger] g.has_edge(ord[a], ord[b]) ==> a < b
}

/// The graph is acyclic: some complete topological enumeration exists.
pub open spec fn acyclic(g: TaskGraph) -> bool {
    exists|ord: Seq<usize>| is_complete_topo(g, ord)
}

/// `done` is a valid completion history: distinct in-range tasks, each
/// completed only after all of its predecessors.
pub open spec fn topo_history(g: TaskGraph, done: Seq<usize>) -> bool {
    &&& done.no_duplicates()
    &&& forall|q: int| 0 <= q < done.len() ==> ((#[trigger] done[q]) as nat) < g.task_count()
    &&& forall|b: int, p: usize|
        0 <= b < done.len() && #[trigger] g.has_edge(p, done[b]) ==> exists|a: int|
            0 <= a < b && done[a] == p
}

/// Continuing the serial order preserves a valid completion history.
proof fn lemma_serial_rec_history(g: TaskGraph, done: Seq<usize>)
    requires
        g.wf(),
        topo_history(g, done),
    ensures
        topo_history(g, serial_order_rec(g, done)),
        serial_order_rec(g, done).len() >= done.len(),
    decreases g.task_count() - done.len(),
{
    if done.len() < g.task_count() && (exists|t: usize| min_avail(g, done, Set::empty(), t)) {
        let t = choose|t: usize| min_avail(g, done, Set::empty(), t);
        let next = done.push(t);
        assert(topo_history(g, next)) by {
            assert(next.no_duplicates()) by {
                assert forall|a: int, b: int| 0 <= a < b < next.len() implies next[a] != next[b] by {
                    if b < done.len() {
                        assert(next[a] == done[a] && next[b] == done[b]);
                    } else {
                        assert(next[b] == t);
                        assert(next[a] == done[a]);
                        assert(done.contains(done[a]));
                    }
                }
            }
            assert forall|b: int, p: usize|
                0 <= b < next.len() && #[trigger] g.has_edge(p, next[b]) implies exists|a: int|
                0 <= a < b && next[a] == p by {
                if b < done.len() {
                    assert(next[b] == done[b]);
                    let a = choose|a: int| 0 <= a < b && done[a] == p;
                    assert(next[a] == p);
                } else {
                    assert(next[b] == t);
                    assert(done.contains(p));
                    let a = choose|a: int| 0 <= a < done.len() && done[a] == p;
                    assert(next[a] == p);
                }
            }
        }
        lemma_serial_rec_history(g, next);
    }
}

/// When the serial order completes, it is a complete topological
/// enumeration: every task occurs exactly once and every edge points
/// forward.
pub proof fn lemma_serial_walk_topological(g: TaskGraph)
    requires
        g.wf(),
        serial_order(g).len() == g.task_count(),
    ensures
        is_complete_topo(g, serial_order(g)),
        forall|t: usize| (t as nat) < g.task_count() ==> serial_order(g).contains(t),
{
    let ord = serial_order(g);
    assert(topo_history(g, Seq::<usize>::empty()));
    lemma_serial_rec_history(g, Seq::<usize>::empty());
    assert forall|a: int, b: int|
        0 <= a < ord.len() && 0 <= b < ord.len() && #[trigger] g.has_edge(
            ord[a],
            ord[b],
        ) implies a < b by {
        let a2 = choose|a2: int| 0 <= a2 < b && ord[a2] == ord[a];
        if a != a2 {
            if a < a2 {
                assert(ord[a] != ord[a2]);
            } else {
                assert(ord[a2] != ord[a]);
            }
        }
    }
    assert forall|t: usize| (t as nat) < g.task_count() implies ord.contains(t) by {
        lemma_distinct_bounded_covers(ord, g.task_count(), t);
    }
}

/// `t` is the available task with the smallest name among those below the
/// bound `b`.
spec fn is_min_below(g: TaskGraph, done: Seq<usize>, taken: Set<usize>, b: nat, t: usize) -> bool {
    &&& (t as nat) < b
    &&& avail(g, done, taken, t)
    &&& forall|u: usize|
        (u as nat) < b && #[trigger] avail(g, done, taken, u) && u != t ==> lex_lt(
            g.name_at(t),
            g.name_at(u),
        )
}

/// Among the tasks available below the bound there is one whose name is
/// lexicographically least.
#[verifier::spinoff_prover]
proof fn lemma_min_below(g: TaskGraph, done: Seq<usize>, taken: Set<usize>, b: nat)
    requires
        g.wf(),
        b <= g.task_count(),
        exists|t: usize| (t as nat) < b && avail(g, done, taken, t),
    ensures
        exists|t: usize| #[trigger] is_min_below(g, done, taken, b, t),
    decreases b,
{
    if b > 0 {
        let last = (b - 1) as usize;
        if exists|t: usize| (t as nat) < b - 1 && avail(g, done, taken, t) {
            lemma_min_below(g, done, taken, (b - 1) as nat);
            let m = choose|t: usize| #[trigger] is_min_below(g, done, taken, (b - 1) as nat, t);
            if avail(g, done, taken, last) {
                lemma_lex_connex(g.name_at(m), g.name_at(last));
                if g.name_at(m) == g.name_at(last) {
                    assert(m < last);
                    assert(g.name_at(m) != g.name_at(last));
                }
                if lex_lt(g.name_at(m), g.name_at(last)) {
                    assert forall|u: usize|
                        (u as nat) < b && #[trigger] avail(g, done, taken, u) && u
                            != m implies lex_lt(g.name_at(m), g.name_at(u)) by {}
                    assert(is_min_below(g, done, taken, b, m));
                } else {
                    assert forall|u: usize|
                        (u as nat) < b && #[trigger] avail(g, done, taken, u) && u
                            != last implies lex_lt(g.name_at(last), g.name_at(u)) by {
                        if u != m {
                            assert(lex_lt(g.name_at(m), g.name_at(u)));
                            lemma_lex_trans(g.name_at(last), g.name_at(m), g.name_at(u));
                        }
                    }
                    assert(is_min_below(g, done, taken, b, last));
                }
            } else {
                assert forall|u: usize|
                    (u as nat) < b && #[trigger] avail(g, done, taken, u) && u != m implies lex_lt(
                    g.name_at(m),
                    g.name_at(u),
                ) by {
                    assert(u != last);
                }
                assert(is_min_below(g, done, taken, b, m));
            }
        } else {
            let t0 = choose|t: usize| (t as nat) < b && avail(g, done, taken, t);
            assert(t0 == last);
            assert forall|u: usize|
                (u as nat) < b && #[trigger] avail(g, done, taken, u) && u != last implies lex_lt(
                g.name_at(last),
                g.name_at(u),
            ) by {}
            assert(is_min_below(g, done, taken, b, last));
        }
    }
}

/// If any task is available, a lexicographically least available task
/// exists.
pub proof fn lemma_min_avail_exists(g: TaskGraph, done: Seq<usize>, taken: Set<usize>)
    requires
        g.wf(),
        exists|t: usize| avail(g, done, taken, t),
    ensures
        exists|t: usize| min_avail(g, done, taken, t),
{
    let t0 = choose|t: usize| avail(g, done, taken, t);
    assert((t0 as nat) < g.task_count());
    lemma_min_below(g, done, taken, g.task_count());
    let m = choose|t: usize| #[trigger] is_min_below(g, done, taken, g.task_count(), t);
    assert forall|u: usize| #[trigger] avail(g, done, taken, u) && u != m implies lex_lt(
        g.name_at(m),
        g.name_at(u),
    ) by {
        assert((u as nat) < g.task_count());
    }
    assert(min_avail(g, done, taken, m));
}

/// Within any complete topological enumeration there is a first entry not
/// yet completed, all of whose forerunners are completed.
proof fn lemma_first_unfinished(ord: Seq<usize>, done: Seq<usize>, k: int)
    requires
        0 <= k < ord.len(),
        !done.contains(ord[k]),
    ensures
        exists|m: int|
            0 <= m < ord.len() && !done.contains(#[trigger] ord[m]) && (forall|j: int|
                0 <= j < m ==> done.contains(#[trigger] ord[j])),
    decreases k,
{
    if exists|j: int| 0 <= j < k && !done.contains(#[trigger] ord[j]) {
        let j = choose|j: int| 0 <= j < k && !done.contains(#[trigger] ord[j]);
        lemma_first_unfinished(ord, done, j);
    } else {
        assert(0 <= k < ord.len() && !done.contains(ord[k]) && (forall|j: int|
            0 <= j < k ==> done.contains(#[trigger] ord[j])));
    }
}

/// In an acyclic graph, an incomplete valid history always has a ready
/// task.
proof fn lemma_acyclic_has_ready(g: TaskGraph, done: Seq<usize>)
    requires
        g.wf(),
        acyclic(g),
        done.no_duplicates(),
        forall|q: int| 0 <= q < done.len() ==> ((#[trigger] done[q]) as nat) < g.task_count(),
        done.len() < g.task_count(),
    ensures
        exists|t: usize| ready(g, done, t),
{
    let ord = choose|ord: Seq<usize>| is_complete_topo(g, ord);
    assert(exists|k: int| 0 <= k < ord.len() && !done.contains(#[trigger] ord[k])) by {
        if forall|k: int| 0 <= k < ord.len() ==> done.contains(#[trigger] ord[k]) {
            ord.unique_seq_to_set();
            assert(ord.to_set().subset_of(done.to_set())) by {
                assert forall|x: usize| #[trigger] ord.to_set().contains(x) implies done.to_set()
                    .contains(x) by {
                    let kk = choose|kk: int| 0 <= kk < ord.len() && ord[kk] == x;
                    assert(done.contains(x));
                }
            }
            done.lemma_cardinality_of_set();
            vstd::set_lib::lemma_len_subset(ord.to_set(), done.to_set());
            assert(false);
        }
    }
    let k = choose|k: int| 0 <= k < ord.len() && !done.contains(#[trigger] ord[k]);
    lemma_first_unfinished(ord, done, k);
    let m = choose|m: int|
        0 <= m < ord.len() && !done.contains(#[trigger] ord[m]) && (forall|j: int|
            0 <= j < m ==> done.contains(#[trigger] ord[j]));
    let t = ord[m];
    assert(ready(g, done, t)) by {
        assert forall|p: usize| #[trigger] g.has_edge(p, t) implies done.contains(p) by {
            lemma_distinct_bounded_covers(ord, g.task_count(), p);
            let a = choose|a: int| 0 <= a < ord.len() && ord[a] == p;
            assert(g.has_edge(ord[a], ord[m]));
            assert(a < m);
            assert(done.contains(ord[a]));
        }
    }
}

/// On an acyclic graph the serial order completes every task.
pub proof fn lemma_acyclic_completes(g: TaskGraph)
    requires
        g.wf(),
        acyclic(g),
    ensures
        serial_order(g).len() == g.task_count(),
{
    lemma_acyclic_completes_rec(g, Seq::<usize>::empty());
}

proof fn lemma_acyclic_completes_rec(g: TaskGraph, done: Seq<usize>)
    requires
        g.wf(),
        acyclic(g),
        done.no_duplicates(),
        forall|q: int| 0 <= q < done.len() ==> ((#[trigger] done[q]) as nat) < g.task_count(),
        done.len() <= g.task_count(),
    ensures
        serial_order_rec(g, done).len() == g.task_count(),
    decreases g.task_count() - done.len(),
{
    if done.len() < g.task_count() {
        lemma_acyclic_has_ready(g, done);
        lemma_min_avail_exists(g, done, Set::empty());
        let t = choose|t: usize| min_avail(g, done, Set::empty(), t);
        let next = done.push(t);
        assert(next.no_duplicates()) by {
            assert forall|a: int, b: int| 0 <= a < b < next.len() implies next[a] != next[b] by {
                if b < done.len() {
                    assert(next[a] == done[a] && next[b] == done[b]);
                } else {
                    assert(next[b] == t);
                    assert(next[a] == done[a]);
                    assert(done.contains(done[a]));
                }
            }
        }
        lemma_acyclic_completes_rec(g, next);
    }
}

/// The serial walk is deterministic: any two outputs that satisfy its
/// contract for the same graph are the same string of names.
pub proof fn lemma_serial_walk_deterministic(g: TaskGraph, r1: Seq<char>, r2: Seq<char>)
    requires
        r1 == concat_names(g, serial_order(g)),
        r2 == concat_names(g, serial_order(g)),
    ensures
        r1 == r2,
{
}

/// A graph with no complete topological enumeration makes the serial walk
/// stall: its order cannot cover every task.
pub proof fn lemma_cyclic_serial_stalls(g: TaskGraph)
    requires
        g.wf(),
        !acyclic(g),
    ensures
        serial_order(g).len() < g.task_count(),
{
    lemma_serial_rec_history(g, Seq::<usize>::empty());
    if serial_order(g).len() == g.task_count() {
        lemma_serial_walk_topological(g);
        assert(is_complete_topo(g, serial_order(g)));
        assert(false);
    }
    assert(serial_order(g).len() <= g.task_count()) by {
        lemma_distinct_bounded_len(serial_order(g), g.task_count());
    }
}

/// A worker slot: idle, or working on a task with some remaining time.
#[derive(Clone, Copy, Debug, PartialEq, Eq, Structural)]
pub enum Worker {
    Idle,
    Working { task: usize, remaining: i64 },
}

/// Whether the worker is idle.
pub fn is_worker_idle(worker: &Worker) -> (r: bool)
    ensures
        r == (*worker is Idle),
{
    match worker {
        Worker::Idle => true,
        Worker::Working { .. } => false,
    }
}

/// Whether at least one worker is idle.
pub fn workers_idle(workers: &Vec<Worker>) -> (r: bool)
    ensures
        r == exists|i: int| 0 <= i < workers@.len() && (#[trigger] workers@[i]) is Idle,
{
    let mut k: usize = 0;
    while k < workers.len()
        invariant
            k <= workers@.len(),
            forall|i: int| 0 <= i < k ==> !((#[trigger] workers@[i]) is Idle),
        decreases workers@.len() - k,
    {
        if is_worker_idle(&workers[k]) {
            return true;
        }
        k = k + 1;
    }
    false
}

/// Some worker is busy.
pub open spec fn any_busy(ws: Seq<Worker>) -> bool {
    exists|i: int| 0 <= i < ws.len() && (#[trigger] ws[i]) is Working
}

/// Whether at least one worker is busy.
pub fn workers_working(workers: &Vec<Worker>) -> (r: bool)
    ensures
        r == any_busy(workers@),
{
    let mut k: usize = 0;
    while k < workers.len()
        invariant
            k <= workers@.len(),
            forall|i: int| 0 <= i < k ==> !((#[trigger] workers@[i]) is Working),
        decreases workers@.len() - k,
    {
        if !is_worker_idle(&workers[k]) {
            return true;
        }
        k = k + 1;
    }
    false
}

/// Some worker is busy with task `t`.
pub open spec fn holds_task(ws: Seq<Worker>, t: usize) -> bool {
    exists|i: int| 0 <= i < ws.len() && (#[trigger] ws[i]) is Working && ws[i]->task == t
}

/// The set of tasks the workers are busy with.
pub open spec fn busy_tasks(ws: Seq<Worker>) -> Set<usize> {
    Set::new(|t: usize| holds_task(ws, t))
}

/// The duration of a task: the alphabetical position of the first letter of
/// its name, plus one, plus the fixed overhead.
pub open spec fn cost_of(name: Seq<char>, fixed_cost: int) -> int {
    (name[0] as u32) - ('A' as u32) + 1 + fixed_cost
}

/// Every task name starts with an uppercase letter, so every task has a
/// well-defined duration.
pub open spec fn costable(g: TaskGraph) -> bool {
    forall|i: usize|
        (i as nat) < g.task_count() ==> (#[trigger] g.name_at(i)).len() >= 1 && 'A' as u32
            <= g.name_at(i)[0] as u32 <= 'Z' as u32
}

/// The duration of the task named `name`: its first letter's alphabetical
/// position, plus one, plus `fixed_cost`.
pub fn cost(name: &str, fixed_cost: i64) -> (r: i64)
    requires
        name@.len() >= 1,
        'A' as u32 <= name@[0] as u32 <= 'Z' as u32,
        0 <= fixed_cost <= i64::MAX - 26,
    ensures
        r == cost_of(name@, fixed_cost as int),
        1 <= r <= 26 + fixed_cost,
{
    let c = name.get_char(0);
    let pos = (c as u32) - ('A' as u32);
    pos as i64 + 1 + fixed_cost
}

/// One pass of the assignment phase over a worker suffix: each idle worker
/// in turn receives the available task with the smallest name, if one
/// remains.  `taken` holds the tasks already running or assigned earlier in
/// the pass.
pub open spec fn assign_rec(
    g: TaskGraph,
    ws: Seq<Worker>,
    done: Seq<usize>,
    taken: Set<usize>,
    fixed_cost: int,
) -> Seq<Worker>
    decreases ws.len(),
{
    if ws.len() == 0 {
        ws
    } else if ws[0] is Idle && (exists|t: usize| min_avail(g, done, taken, t)) {
        let t = choose|t: usize| min_avail(g, done, taken, t);
        seq![Worker::Working { task: t, remaining: cost_of(g.name_at(t), fixed_cost) as i64 }]
            + assign_rec(g, ws.skip(1), done, taken.insert(t), fixed_cost)
    } else {
        seq![ws[0]] + assign_rec(g, ws.skip(1), done, taken, fixed_cost)
    }
}

/// The assignment phase applied to all workers.
pub open spec fn spec_assign(
    g: TaskGraph,
    ws: Seq<Worker>,
    done: Seq<usize>,
    fixed_cost: int,
) -> Seq<Worker> {
    assign_rec(g, ws, done, busy_tasks(ws), fixed_cost)
}

/// The least remaining time among the busy workers before position `j`,
/// or `i64::MAX` when none is busy.
pub open spec fn min_remaining_pre(ws: Seq<Worker>, j: int) -> int
    decreases j,
{
    if j <= 0 {
        i64::MAX as int
    } else {
        let r = min_remaining_pre(ws, j - 1);
        if ws[j - 1] is Working && ws[j - 1]->remaining < r {
            ws[j - 1]->remaining as int
        } else {
            r
        }
    }
}

/// The least remaining time among all busy workers.
pub open spec fn min_remaining(ws: Seq<Worker>) -> int {
    min_remaining_pre(ws, ws.len() as int)
}

/// The minimum is attained and is a lower bound, considering workers before
/// position `j`.
proof fn lemma_min_remaining_pre(ws: Seq<Worker>, j: int)
    requires
        0 <= j <= ws.len(),
    ensures
        forall|i: int|
            0 <= i < j && (#[trigger] ws[i]) is Working ==> min_remaining_pre(ws, j)
                <= ws[i]->remaining,
        (exists|i: int| 0 <= i < j && (#[trigger] ws[i]) is Working) ==> exists|i: int|
            0 <= i < j && (#[trigger] ws[i]) is Working && ws[i]->remaining == min_remaining_pre(
                ws,
                j,
            ),
        min_remaining_pre(ws, j) <= i64::MAX,
        !(exists|i: int| 0 <= i < j && (#[trigger] ws[i]) is Working) ==> min_remaining_pre(ws, j)
            == i64::MAX as int,
    decreases j,
{
    if j > 0 {
        lemma_min_remaining_pre(ws, j - 1);
        let r = min_remaining_pre(ws, j - 1);
        if ws[j - 1] is Working {
            if ws[j - 1]->remaining < r {
                assert(ws[j - 1]->remaining == min_remaining_pre(ws, j));
            } else {
                if exists|i: int| 0 <= i < j - 1 && (#[trigger] ws[i]) is Working {
                    let i = choose|i: int|
                        0 <= i < j - 1 && (#[trigger] ws[i]) is Working && ws[i]->remaining == r;
                    assert(0 <= i < j && ws[i] is Working && ws[i]->remaining == min_remaining_pre(
                        ws,
                        j,
                    ));
                } else {
                    assert(r == i64::MAX as int);
                    assert(ws[j - 1]->remaining == min_remaining_pre(ws, j));
                }
            }
        }
    }
}

/// The tasks of the workers before position `j` that finish when the clock
/// advances by `delta`, in worker order.
pub open spec fn finished_pre(ws: Seq<Worker>, delta: int, j: int) -> Seq<usize>
    decreases j,
{
    if j <= 0 {
        Seq::empty()
    } else {
        let rest = finished_pre(ws, delta, j - 1);
        if ws[j - 1] is Working && ws[j - 1]->remaining == delta {
            rest.push(ws[j - 1]->task)
        } else {
            rest
        }
    }
}

/// The tasks that finish when the clock advances by `delta`.
pub open spec fn finished_tasks(ws: Seq<Worker>, delta: int) -> Seq<usize> {
    finished_pre(ws, delta, ws.len() as int)
}

/// A worker after the clock advances by `delta`.
pub open spec fn step_worker(w: Worker, delta: int) -> Worker {
    if w is Working {
        if w->remaining == delta {
            Worker::Idle
        } else {
            Worker::Working { task: w->task, remaining: (w->remaining - delta) as i64 }
        }
    } else {
        w
    }
}

/// All workers after the clock advances by `delta`.
pub open spec fn advance_workers(ws: Seq<Worker>, delta: int) -> Seq<Worker> {
    Seq::new(ws.len(), |i: int| step_worker(ws[i], delta))
}

/// The discrete-event simulation, one round per recursive step: assign all
/// possible tasks, and if any worker is busy advance the clock to the next
/// completion; otherwise the run has either finished every task or stalled.
pub open spec fn sim_rec(
    g: TaskGraph,
    clock: int,
    ws: Seq<Worker>,
    done: Seq<usize>,
    fixed_cost: int,
) -> Option<(int, Seq<usize>)>
    decreases g.task_count() - done.len(),
{
    let ws1 = spec_assign(g, ws, done, fixed_cost);
    if !any_busy(ws1) {
        if done.len() == g.task_count() {
            Option::Some((clock, done))
        } else {
            Option::None
        }
    } else {
        let delta = min_remaining(ws1);
        let fin = finished_tasks(ws1, delta);
        if 1 <= fin.len() && done.len() + fin.len() <= g.task_count() {
            sim_rec(g, clock + delta, advance_workers(ws1, delta), done + fin, fixed_cost)
        } else {
            Option::None
        }
    }
}

/// The simulation of the whole graph on `workers` idle workers.
pub open spec fn sim_result(g: TaskGraph, workers: nat, fixed_cost: int) -> Option<
    (int, Seq<usize>),
> {
    sim_rec(g, 0, Seq::new(workers, |i: int| Worker::Idle), Seq::empty(), fixed_cost)
}

/// Every busy worker holds a distinct, uncompleted, in-range task whose
/// predecessors have all completed, with a plausible remaining time.
pub open spec fn workers_ok(g: TaskGraph, ws: Seq<Worker>, done: Seq<usize>, fixed_cost: int) -> bool {
    &&& forall|i: int|
        0 <= i < ws.len() && (#[trigger] ws[i]) is Working ==> {
            &&& ((ws[i]->task) as nat) < g.task_count()
            &&& !done.contains(ws[i]->task)
            &&& 1 <= ws[i]->remaining <= 26 + fixed_cost
        }
    &&& forall|i: int, p: usize|
        0 <= i < ws.len() && (#[trigger] ws[i]) is Working && #[trigger] g.has_edge(
            p,
            ws[i]->task,
        ) ==> done.contains(p)
    &&& forall|i: int, j: int|
        0 <= i < j < ws.len() && (#[trigger] ws[i]) is Working && (#[trigger] ws[j]) is Working
            ==> ws[i]->task != ws[j]->task
}

/// The frontier holds exactly the tasks available against the completed
/// list and the running tasks.
pub open spec fn frontier_matches(
    f: Frontier,
    g: TaskGraph,
    done: Seq<usize>,
    ws: Seq<Worker>,
) -> bool {
    forall|u: usize| f.contains_task(u) <==> avail(g, done, busy_tasks(ws), u)
}

/// Whether every predecessor of task `c` is marked in `visited`, which
/// mirrors membership in `done`.
fn preds_completed(
    g: &TaskGraph,
    visited: &Vec<bool>,
    c: usize,
    Ghost(done): Ghost<Seq<usize>>,
) -> (r: bool)
    requires
        g.wf(),
        (c as nat) < g.task_count(),
        visited@.len() == g.task_count(),
        forall|t: usize| (t as nat) < g.task_count() ==> visited@[t as int] == done.contains(t),
    ensures
        r == (forall|p: usize| #[trigger] g.has_edge(p, c) ==> done.contains(p)),
{
    let pred_list = g.predecessors(c);
    let mut q: usize = 0;
    let mut all_done = true;
    while q < pred_list.len() && all_done
        invariant
            g.wf(),
            (c as nat) < g.task_count(),
            pred_list@ == g.preds@[c as int]@,
            q <= pred_list@.len(),
            visited@.len() == g.task_count(),
            forall|t: usize| (t as nat) < g.task_count() ==> visited@[t as int] == done.contains(t),
            all_done ==> forall|z: int| 0 <= z < q ==> done.contains(#[trigger] pred_list@[z]),
            !all_done ==> exists|z: int|
                0 <= z < pred_list@.len() && !done.contains(#[trigger] pred_list@[z]),
        decreases pred_list@.len() - q,
    {
        proof {
            assert(((pred_list@[q as int]) as nat) < g.task_count()) by {
                assert(g.preds@[c as int]@[q as int] < g.task_count());
            }
        }
        if !visited[pred_list[q]] {
            all_done = false;
        }
        q = q + 1;
    }
    proof {
        if all_done {
            assert forall|p: usize| #[trigger] g.has_edge(p, c) implies done.contains(p) by {
                assert(g.preds@[c as int]@.contains(p));
                let z = choose|z: int|
                    0 <= z < g.preds@[c as int]@.len() && g.preds@[c as int]@[z] == p;
                assert(done.contains(pred_list@[z]));
            }
        } else {
            let z = choose|z: int|
                0 <= z < pred_list@.len() && !done.contains(#[trigger] pred_list@[z]);
            assert(g.preds@[c as int]@.contains(pred_list@[z]));
            assert(g.has_edge(pred_list@[z], c));
        }
    }
    all_done
}

/// One terminal unfolding of the simulation: after an assignment phase
/// that leaves no worker busy, the run has finished or stalled.
proof fn lemma_sim_terminal(
    g: TaskGraph,
    clock: int,
    ws0: Seq<Worker>,
    done: Seq<usize>,
    fixed_cost: int,
    ws1: Seq<Worker>,
)
    requires
        ws1 == spec_assign(g, ws0, done, fixed_cost),
        !any_busy(ws1),
    ensures
        done.len() == g.task_count() ==> sim_rec(g, clock, ws0, done, fixed_cost) == Option::Some(
            (clock, done),
        ),
        done.len() != g.task_count() ==> sim_rec(g, clock, ws0, done, fixed_cost) is None,
{
}

/// One advancing unfolding of the simulation: a round that assigns, jumps
/// the clock and completes at least one task continues the same run.
proof fn lemma_sim_round(
    g: TaskGraph,
    clock: int,
    ws0: Seq<Worker>,
    done_pre: Seq<usize>,
    fixed_cost: int,
    ws1: Seq<Worker>,
    delta: int,
    done2: Seq<usize>,
    ws2: Seq<Worker>,
)
    requires
        ws1 == spec_assign(g, ws0, done_pre, fixed_cost),
        any_busy(ws1),
        delta == min_remaining(ws1),
        done2 == done_pre + finished_tasks(ws1, delta),
        ws2 == advance_workers(ws1, delta),
        1 <= finished_tasks(ws1, delta).len(),
        done_pre.len() + finished_tasks(ws1, delta).len() <= g.task_count(),
    ensures
        sim_rec(g, clock, ws0, done_pre, fixed_cost) == sim_rec(
            g,
            clock + delta,
            ws2,
            done2,
            fixed_cost,
        ),
{
}

/// The clock stays within range while it is bounded by the completed work.
proof fn lemma_clock_step(g: TaskGraph, clock: int, dlen: int, delta: int, fixed_cost: int)
    requires
        0 <= clock,
        0 <= fixed_cost,
        clock <= dlen * (26 + fixed_cost),
        1 <= delta <= 26 + fixed_cost,
        0 <= dlen < g.task_count(),
        (g.task_count() + 1) * (26 + fixed_cost) <= i64::MAX,
    ensures
        clock + delta <= i64::MAX,
        clock + delta <= (dlen + 1) * (26 + fixed_cost),
{
    vstd::arithmetic::mul::lemma_mul_is_distributive_add_other_way(26 + fixed_cost, dlen, 1);
    vstd::arithmetic::mul::lemma_mul_inequality(dlen + 1, g.task_count() as int + 1, 26 + fixed_cost);
}

/// Runs the discrete-event worker-pool simulation: a pool of
/// `worker_count` identical workers repeatedly picks up the available task
/// with the smallest name (lowest-indexed idle worker first), each task
/// taking `cost` time units; the clock jumps to the next completion.
/// Returns the total elapsed time and the completion order, or reports a
/// stall when unfinished tasks all wait on a cycle.
#[verifier::rlimit(100)]
pub fn simulate(g: &TaskGraph, worker_count: usize, fixed_overhead: i64) -> (r: Result<
    (i64, String),
    ScheduleError,
>)
    requires
        g.wf(),
        costable(*g),
        worker_count >= 1,
        0 <= fixed_overhead,
        (g.task_count() + 1) * (26 + fixed_overhead as int) <= i64::MAX,
    ensures
        (r is Ok) <==> (sim_result(*g, worker_count as nat, fixed_overhead as int) is Some),
        r matches Ok(p) ==> {
            let out = sim_result(*g, worker_count as nat, fixed_overhead as int)->Some_0;
            p.0 == out.0 && p.1@ == concat_names(*g, out.1)
        },
        r matches Err(e) ==> e == ScheduleError::Stalled,
{
    let n = g.len();
    let ghost fixed = fixed_overhead as int;
    let mut frontier = g.initial_frontier();
    let mut workers: Vec<Worker> = vec![Worker::Idle; worker_count];
    let mut visited: Vec<bool> = vec![false; n];
    let mut out = String::new();
    let mut completed: usize = 0;
    let mut clock: i64 = 0;
    let ghost mut done: Seq<usize> = Seq::empty();
    proof {
        assert(workers@ =~= Seq::new(worker_count as nat, |i: int| Worker::Idle));
        assert(busy_tasks(workers@) =~= Set::<usize>::empty()) by {
            assert forall|t: usize| !(#[trigger] busy_tasks(workers@).contains(t)) by {
                if holds_task(workers@, t) {
                    let i = choose|i: int|
                        0 <= i < workers@.len() && (#[trigger] workers@[i]) is Working
                            && workers@[i]->task == t;
                    assert(false);
                }
            }
        }
        assert(frontier_matches(frontier, *g, done, workers@));
    }
    loop
        invariant
            g.wf(),
            costable(*g),
            n == g.task_count(),
            worker_count >= 1,
            0 <= fixed_overhead,
            fixed == fixed_overhead as int,
            (g.task_count() + 1) * (26 + fixed) <= i64::MAX,
            workers@.len() == worker_count,
            visited@.len() == n,
            completed == done.len(),
            done.len() <= n,
            done.no_duplicates(),
            forall|q: int| 0 <= q < done.len() ==> ((#[trigger] done[q]) as nat) < n,
            forall|t: usize| (t as nat) < n ==> (visited@[t as int] == done.contains(t)),
            frontier.wf(),
            frontier.in_range(g.task_count()),
            frontier_matches(frontier, *g, done, workers@),
            workers_ok(*g, workers@, done, fixed),
            0 <= clock,
            clock <= (done.len() as int) * (26 + fixed),
            out@ == concat_names(*g, done),
            sim_rec(*g, clock as int, workers@, done, fixed) == sim_result(
                *g,
                worker_count as nat,
                fixed,
            ),
        decreases n - completed,
    {
        let ghost ws0 = workers@;
        let ghost taken0 = busy_tasks(ws0);
        let ghost mut taken: Set<usize> = taken0;
        let ghost target = assign_rec(*g, ws0, done, taken0, fixed);
        proof {
            assert(ws0.skip(0) =~= ws0);
            assert(workers@.take(0) + assign_rec(*g, ws0.skip(0), done, taken, fixed) =~= target);
        }
        let mut widx: usize = 0;
        while widx < worker_count
            invariant
                g.wf(),
                costable(*g),
                n == g.task_count(),
                worker_count >= 1,
                0 <= fixed_overhead,
                fixed == fixed_overhead as int,
                widx <= worker_count,
                (g.task_count() + 1) * (26 + fixed) <= i64::MAX,
                workers@.len() == worker_count,
                ws0.len() == worker_count,
                visited@.len() == n,
                completed == done.len(),
                done.len() <= n,
                done.no_duplicates(),
                forall|q: int| 0 <= q < done.len() ==> ((#[trigger] done[q]) as nat) < n,
                forall|t: usize| (t as nat) < n ==> (visited@[t as int] == done.contains(t)),
                frontier.wf(),
                frontier.in_range(g.task_count()),
                forall|i: int| widx <= i < worker_count ==> workers@[i] == ws0[i],
                taken == busy_tasks(workers@),
                target == workers@.take(widx as int) + assign_rec(
                    *g,
                    ws0.skip(widx as int),
                    done,
                    taken,
                    fixed,
                ),
                forall|u: usize| frontier.contains_task(u) <==> avail(*g, done, taken, u),
                workers_ok(*g, workers@, done, fixed),
            decreases worker_count - widx,
        {
            let ghost ws_before = workers@;
            let ghost taken_before = taken;
            let w_is_idle = is_worker_idle(&workers[widx]);
            proof {
                assert(ws0.skip(widx as int)[0] == ws0[widx as int]);
                assert(ws0.skip(widx as int).skip(1) =~= ws0.skip(widx as int + 1));
            }
            if w_is_idle && !frontier.is_empty() {
                let ghost fsnap = frontier;
                let t = frontier.pop_smallest(g);
                proof {
                    assert(avail(*g, done, taken, t));
                    assert forall|u: usize| #[trigger] avail(*g, done, taken, u) && u
                        != t implies lex_lt(g.name_at(t), g.name_at(u)) by {
                        assert(fsnap.contains_task(u));
                    }
                    assert(min_avail(*g, done, taken, t));
                }
                proof {
                    assert(g.name_at(t).len() >= 1 && 'A' as u32 <= g.name_at(t)[0] as u32 <= 'Z'
                        as u32);
                    assert(26 + fixed <= i64::MAX) by {
                        vstd::arithmetic::mul::lemma_mul_inequality(1, n as int + 1, 26 + fixed);
                    }
                }
                let c = cost(g.name(t).as_str(), fixed_overhead);
                workers[widx] = Worker::Working { task: t, remaining: c };
                proof {
                    taken = taken_before.insert(t);
                    // the new worker matches the one the assignment spec creates
                    let chosen = choose|u: usize| min_avail(*g, done, taken_before, u);
                    lemma_min_avail_unique(*g, done, taken_before, t, chosen);
                    assert(c == cost_of(g.name_at(t), fixed) as i64);
                    assert(assign_rec(*g, ws0.skip(widx as int), done, taken_before, fixed)
                        =~= seq![workers@[widx as int]] + assign_rec(
                        *g,
                        ws0.skip(widx as int + 1),
                        done,
                        taken,
                        fixed,
                    ));
                    // the running-task set gains exactly t
                    assert(busy_tasks(workers@) =~= taken) by {
                        assert forall|u: usize| #[trigger] holds_task(workers@, u) implies
                            taken.contains(u) by {
                            let i = choose|i: int|
                                0 <= i < workers@.len() && (#[trigger] workers@[i]) is Working
                                    && workers@[i]->task == u;
                            if i != widx {
                                assert(ws_before[i] == workers@[i]);
                                assert(holds_task(ws_before, u));
                                assert(taken_before.contains(u));
                            }
                        }
                        assert forall|u: usize| taken.contains(u) implies #[trigger] holds_task(
                            workers@,
                            u,
                        ) by {
                            if u == t {
                                assert(workers@[widx as int] is Working && workers@[widx as int]->task == t);
                            } else {
                                assert(holds_task(ws_before, u));
                                let i = choose|i: int|
                                    0 <= i < ws_before.len() && (#[trigger] ws_before[i]) is Working
                                        && ws_before[i]->task == u;
                                assert(workers@[i] == ws_before[i]);
                            }
                        }
                    }
                    // the frontier now matches the grown taken set
                    assert forall|u: usize| frontier.contains_task(u) implies avail(
                        *g,
                        done,
                        taken,
                        u,
                    ) by {
                        assert(avail(*g, done, taken_before, u));
                        assert(u != t);
                    }
                    assert forall|u: usize| avail(*g, done, taken, u) implies
                        frontier.contains_task(u) by {
                        assert(avail(*g, done, taken_before, u));
                        assert(u != t);
                    }
                    // workers_ok is preserved
                    assert(workers_ok(*g, workers@, done, fixed)) by {
                        assert forall|i: int, j: int|
                            0 <= i < j < workers@.len() && (#[trigger] workers@[i]) is Working && (
                            #[trigger] workers@[j]) is Working implies workers@[i]->task
                            != workers@[j]->task by {
                            if i == widx {
                                if workers@[j]->task == t {
                                    assert(holds_task(ws_before, t)) by {
                                        assert(ws_before[j] == workers@[j]);
                                    }
                                    assert(taken_before.contains(t));
                                    assert(false);
                                }
                            } else if j == widx {
                                if workers@[i]->task == t {
                                    assert(holds_task(ws_before, t)) by {
                                        assert(ws_before[i] == workers@[i]);
                                    }
                                    assert(taken_before.contains(t));
                                    assert(false);
                                }
                            }
                        }
                    }
                }
            } else {
                proof {
                    if ws0[widx as int] is Idle {
                        assert(frontier.tasks@.len() == 0);
                        assert(!(exists|u: usize| min_avail(*g, done, taken, u))) by {
                            if exists|u: usize| min_avail(*g, done, taken, u) {
                                let u = choose|u: usize| min_avail(*g, done, taken, u);
                                assert(avail(*g, done, taken, u));
                                assert(frontier.contains_task(u));
                                assert(frontier.tasks@.contains(u));
                                assert(false);
                            }
                        }
                    }
                    assert(assign_rec(*g, ws0.skip(widx as int), done, taken, fixed)
                        =~= seq![ws0[widx as int]] + assign_rec(
                        *g,
                        ws0.skip(widx as int + 1),
                        done,
                        taken,
                        fixed,
                    ));
                }
            }
            proof {
                assert(workers@.take(widx as int) =~= ws_before.take(widx as int));
                assert(workers@.take(widx as int + 1) =~= workers@.take(widx as int) + seq![
                    workers@[widx as int],
                ]);
                assert(workers@[widx as int] == if ws_before[widx as int] is Idle
                    && taken != taken_before {
                    workers@[widx as int]
                } else {
                    ws0[widx as int]
                });
                assert((workers@.take(widx as int) + seq![workers@[widx as int]]) + assign_rec(
                    *g,
                    ws0.skip(widx as int + 1),
                    done,
                    taken,
                    fixed,
                ) =~= workers@.take(widx as int) + (seq![workers@[widx as int]] + assign_rec(
                    *g,
                    ws0.skip(widx as int + 1),
                    done,
                    taken,
                    fixed,
                )));
            }
            widx = widx + 1;
        }
        proof {
            assert(ws0.skip(worker_count as int) =~= Seq::<Worker>::empty());
            assert(assign_rec(*g, Seq::<Worker>::empty(), done, taken, fixed) =~= Seq::<
                Worker,
            >::empty());
            assert(workers@.take(worker_count as int) =~= workers@);
            assert(workers@ + Seq::<Worker>::empty() =~= workers@);
            assert(workers@ == spec_assign(*g, ws0, done, fixed));
        }
        let ghost ws1 = workers@;
        if !workers_working(&workers) {
            proof {
                lemma_sim_terminal(*g, clock as int, ws0, done, fixed, ws1);
            }
            if completed == n {
                return Ok((clock, out));
            } else {
                return Err(ScheduleError::Stalled);
            }
        }
        // find the next completion time
        let mut delta: i64 = i64::MAX;
        let mut k: usize = 0;
        while k < worker_count
            invariant
                workers@.len() == worker_count,
                k <= worker_count,
                delta as int == min_remaining_pre(workers@, k as int),
            decreases worker_count - k,
        {
            match workers[k] {
                Worker::Working { remaining, .. } => {
                    if remaining < delta {
                        delta = remaining;
                    }
                },
                Worker::Idle => {},
            }
            k = k + 1;
        }
        proof {
            lemma_min_remaining_pre(ws1, ws1.len() as int);
            assert(delta as int == min_remaining(ws1));
            let b = choose|i: int| 0 <= i < ws1.len() && (#[trigger] ws1[i]) is Working;
            let m = choose|i: int|
                0 <= i < ws1.len() && (#[trigger] ws1[i]) is Working && ws1[i]->remaining
                    == min_remaining(ws1);
            assert(1 <= delta <= 26 + fixed);
            // the completion list is nonempty
            lemma_finished_pre_props(ws1, delta as int, ws1.len() as int);
            assert(finished_tasks(ws1, delta as int).len() >= 1) by {
                assert(ws1[m] is Working && ws1[m]->remaining == delta as int);
            }
            // the clock stays in range
            assert(done.len() < n) by {
                assert(!done.contains(ws1[m]->task));
                lemma_distinct_bounded_len(done.push(ws1[m]->task), n as nat);
                assert(done.push(ws1[m]->task).no_duplicates()) by {
                    assert forall|a: int, bq: int|
                        0 <= a < bq < done.push(ws1[m]->task).len() implies done.push(
                        ws1[m]->task,
                    )[a] != done.push(ws1[m]->task)[bq] by {
                        if bq < done.len() {
                            assert(done.push(ws1[m]->task)[a] == done[a]);
                            assert(done.push(ws1[m]->task)[bq] == done[bq]);
                        } else {
                            assert(done.push(ws1[m]->task)[bq] == ws1[m]->task);
                            assert(done.push(ws1[m]->task)[a] == done[a]);
                            assert(done.contains(done[a]));
                        }
                    }
                }
            }
            lemma_clock_step(*g, clock as int, done.len() as int, delta as int, fixed);
        }
        clock = clock + delta;
        let ghost done_pre = done;
        let ghost clock_pre = clock as int - delta as int;
        let mut widx: usize = 0;
        while widx < worker_count
            invariant
                g.wf(),
                costable(*g),
                n == g.task_count(),
                worker_count >= 1,
                0 <= fixed_overhead,
                fixed == fixed_overhead as int,
                widx <= worker_count,
                workers@.len() == worker_count,
                ws1.len() == worker_count,
                1 <= delta as int,
                delta as int == min_remaining(ws1),
                forall|i: int|
                    0 <= i < worker_count && (#[trigger] ws1[i]) is Working ==> delta as int
                        <= ws1[i]->remaining,
                visited@.len() == n,
                completed == done.len(),
                done.len() <= n,
                done.no_duplicates(),
                forall|q: int| 0 <= q < done.len() ==> ((#[trigger] done[q]) as nat) < n,
                forall|t: usize| (t as nat) < n ==> (visited@[t as int] == done.contains(t)),
                frontier.wf(),
                frontier.in_range(g.task_count()),
                forall|i: int| widx <= i < worker_count ==> workers@[i] == ws1[i],
                forall|i: int|
                    0 <= i < widx ==> workers@[i] == step_worker(ws1[i], delta as int),
                done == done_pre + finished_pre(ws1, delta as int, widx as int),
                forall|u: usize|
                    frontier.contains_task(u) <==> avail(*g, done, busy_tasks(workers@), u),
                workers_ok(*g, workers@, done, fixed),
                out@ == concat_names(*g, done),
            decreases worker_count - widx,
        {
            let ghost ws_before = workers@;
            let ghost done_before = done;
            let w = workers[widx];
            proof {
                assert(ws_before[widx as int] == ws1[widx as int]);
            }
            match w {
                Worker::Working { task, remaining } => {
                    proof {
                        assert(ws_before[widx as int] is Working);
                        assert(((task) as nat) < n && !done.contains(task));
                        assert(delta as int <= remaining);
                    }
                    if remaining == delta {
                        proof {
                            done = done_before.push(task);
                            assert(done.len() <= n) by {
                                assert(done.no_duplicates()) by {
                                    assert forall|a: int, bq: int|
                                        0 <= a < bq < done.len() implies done[a] != done[bq] by {
                                        if bq < done_before.len() {
                                            assert(done[a] == done_before[a]);
                                            assert(done[bq] == done_before[bq]);
                                        } else {
                                            assert(done[bq] == task);
                                            assert(done[a] == done_before[a]);
                                            assert(done_before.contains(done_before[a]));
                                        }
                                    }
                                }
                                lemma_distinct_bounded_len(done, n as nat);
                            }
                        }
                        workers[widx] = Worker::Idle;
                        visited[task] = true;
                        out.append(g.name(task).as_str());
                        completed = completed + 1;
                        proof {
                            assert(done.drop_last() =~= done_before);
                            assert(done.no_duplicates()) by {
                                assert forall|a: int, bq: int|
                                    0 <= a < bq < done.len() implies done[a] != done[bq] by {
                                    if bq < done_before.len() {
                                        assert(done[a] == done_before[a]);
                                        assert(done[bq] == done_before[bq]);
                                    } else {
                                        assert(done[bq] == task);
                                        assert(done[a] == done_before[a]);
                                        assert(done_before.contains(done_before[a]));
                                    }
                                }
                            }
                            assert forall|u: usize| #[trigger] done.contains(u) implies (
                            done_before.contains(u) || u == task) by {
                                let z = choose|z: int| 0 <= z < done.len() && done[z] == u;
                                if z < done_before.len() {
                                    assert(done_before[z] == u);
                                }
                            }
                            assert forall|u: usize|
                                done_before.contains(u) implies #[trigger] done.contains(u) by {
                                let z = choose|z: int|
                                    0 <= z < done_before.len() && done_before[z] == u;
                                assert(done[z] == u);
                            }
                            assert(done.contains(task)) by {
                                assert(done.last() == task);
                            }
                            lemma_distinct_bounded_len(done, n as nat);
                            // the finished task leaves the running set
                            assert forall|u: usize| #[trigger] holds_task(workers@, u) implies (
                            holds_task(ws_before, u) && u != task) by {
                                let i = choose|i: int|
                                    0 <= i < workers@.len() && (#[trigger] workers@[i]) is Working
                                        && workers@[i]->task == u;
                                assert(i != widx);
                                assert(ws_before[i] == workers@[i]);
                                if u == task {
                                    assert(ws_before[i] is Working && ws_before[i]->task == task);
                                    assert(ws_before[widx as int] is Working
                                        && ws_before[widx as int]->task == task);
                                    if i < widx {
                                        assert(false);
                                    } else {
                                        assert(false);
                                    }
                                }
                            }
                            assert forall|u: usize|
                                holds_task(ws_before, u) && u != task implies #[trigger] holds_task(
                                workers@,
                                u,
                            ) by {
                                let i = choose|i: int|
                                    0 <= i < ws_before.len() && (#[trigger] ws_before[i]) is Working
                                        && ws_before[i]->task == u;
                                assert(i != widx);
                                assert(workers@[i] == ws_before[i]);
                            }
                            // the frontier still matches: the finished task
                            // moves from running to completed
                            assert forall|u: usize| frontier.contains_task(u) implies avail(
                                *g,
                                done,
                                busy_tasks(workers@),
                                u,
                            ) by {
                                assert(avail(*g, done_before, busy_tasks(ws_before), u));
                                assert(u != task) by {
                                    assert(holds_task(ws_before, task)) by {
                                        assert(ws_before[widx as int] is Working
                                            && ws_before[widx as int]->task == task);
                                    }
                                    assert(busy_tasks(ws_before).contains(task));
                                }
                            }
                        }
                        let succ_list = g.successors(task);
                        let mut j: usize = 0;
                        while j < succ_list.len()
                            invariant
                                g.wf(),
                                n == g.task_count(),
                                (task as nat) < n,
                                succ_list@ == g.succs@[task as int]@,
                                j <= succ_list@.len(),
                                frontier.wf(),
                                frontier.in_range(g.task_count()),
                                visited@.len() == n,
                                done.no_duplicates(),
                                forall|q: int|
                                    0 <= q < done.len() ==> ((#[trigger] done[q]) as nat) < n,
                                done.contains(task),
                                forall|u: usize|
                                    #[trigger] done.contains(u) <==> (done_before.contains(u) || u
                                        == task),
                                forall|u: usize|
                                    (u as nat) < n ==> (visited@[u as int] == done.contains(u)),
                                forall|u: usize|
                                    #[trigger] holds_task(workers@, u) <==> (holds_task(
                                        ws_before,
                                        u,
                                    ) && u != task),
                                workers_ok(*g, ws_before, done_before, fixed),
                                widx < worker_count,
                                ws_before.len() == worker_count,
                                worker_count == workers@.len(),
                                ws_before[widx as int] is Working,
                                ws_before[widx as int]->task == task,
                                !done_before.contains(task),
                                forall|u: usize|
                                    frontier.contains_task(u) <==> (avail(
                                        *g,
                                        done,
                                        busy_tasks(workers@),
                                        u,
                                    ) && ((avail(*g, done_before, busy_tasks(ws_before), u))
                                        || succ_list@.take(j as int).contains(u))),
                            decreases succ_list@.len() - j,
                        {
                            let cnode = succ_list[j];
                            proof {
                                assert(g.succs@[task as int]@.contains(cnode)) by {
                                    assert(g.succs@[task as int]@[j as int] == cnode);
                                }
                                assert(g.has_edge(task, cnode));
                                assert((cnode as nat) < n);
                            }
                            let ok = preds_completed(g, &visited, cnode, Ghost(done));
                            let c_avail = ok && !visited[cnode];
                            proof {
                                if c_avail {
                                    assert(avail(*g, done, busy_tasks(workers@), cnode)) by {
                                        if busy_tasks(workers@).contains(cnode) {
                                            assert(holds_task(ws_before, cnode));
                                            let i = choose|i: int|
                                                0 <= i < ws_before.len() && (
                                                #[trigger] ws_before[i]) is Working
                                                    && ws_before[i]->task == cnode;
                                            assert(g.has_edge(task, ws_before[i]->task));
                                            assert(done_before.contains(task));
                                            assert(ws_before[widx as int] is Working
                                                && ws_before[widx as int]->task == task);
                                            assert(!done_before.contains(task));
                                            assert(false);
                                        }
                                    }
                                } else {
                                    assert(!avail(*g, done, busy_tasks(workers@), cnode)) by {
                                        if !ok {
                                            let p = choose|p: usize|
                                                #[trigger] g.has_edge(p, cnode) && !done.contains(
                                                    p,
                                                );
                                            assert(g.has_edge(p, cnode));
                                        } else {
                                            assert(done.contains(cnode));
                                        }
                                    }
                                }
                            }
                            if c_avail && !frontier.contains(cnode) {
                                frontier.insert(cnode);
                            }
                            proof {
                                assert(succ_list@.take(j + 1).drop_last() =~= succ_list@.take(
                                    j as int,
                                ));
                                assert(succ_list@.take(j + 1).last() == cnode);
                                assert forall|u: usize| #[trigger] succ_list@.take(
                                    j + 1,
                                ).contains(u) implies (succ_list@.take(j as int).contains(u) || u
                                    == cnode) by {
                                    let z = choose|z: int|
                                        0 <= z < succ_list@.take(j + 1).len() && (
                                        #[trigger] succ_list@.take(j + 1)[z]) == u;
                                    if z < j {
                                        assert(succ_list@.take(j as int)[z] == u);
                                    }
                                }
                                assert forall|u: usize|
                                    succ_list@.take(j as int).contains(u)
                                        || u == cnode implies #[trigger] succ_list@.take(
                                    j + 1,
                                ).contains(u) by {
                                    if u == cnode {
                                        assert(succ_list@.take(j + 1)[j as int] == cnode);
                                    } else {
                                        let z = choose|z: int|
                                            0 <= z < succ_list@.take(j as int).len() && (
                                            #[trigger] succ_list@.take(j as int)[z]) == u;
                                        assert(succ_list@.take(j + 1)[z] == u);
                                    }
                                }
                            }
                            j = j + 1;
                        }
                        proof {
                            assert(succ_list@.take(succ_list@.len() as int) =~= succ_list@);
                            assert forall|u: usize|
                                avail(*g, done, busy_tasks(workers@), u) implies
                                #[trigger] frontier.contains_task(u) by {
                                if !avail(*g, done_before, busy_tasks(ws_before), u) {
                                    assert(u != task);
                                    assert(!done_before.contains(u));
                                    if busy_tasks(ws_before).contains(u) {
                                        assert(holds_task(ws_before, u));
                                        assert(busy_tasks(workers@).contains(u));
                                        assert(false);
                                    }
                                    let p = choose|p: usize|
                                        #[trigger] g.has_edge(p, u) && !done_before.contains(p);
                                    assert(done.contains(p));
                                    assert(p == task);
                                    assert(g.succs@[task as int]@.contains(u));
                                }
                            }
                            // completion bookkeeping
                            assert(finished_pre(ws1, delta as int, widx as int + 1)
                                =~= finished_pre(ws1, delta as int, widx as int).push(task));
                            assert(done =~= done_pre + finished_pre(
                                ws1,
                                delta as int,
                                widx as int + 1,
                            )) by {
                                assert(done_before == done_pre + finished_pre(
                                    ws1,
                                    delta as int,
                                    widx as int,
                                ));
                            }
                            // workers_ok for the new state
                            assert(workers_ok(*g, workers@, done, fixed)) by {
                                assert forall|i: int, p: usize|
                                    0 <= i < workers@.len() && (#[trigger] workers@[i]) is Working
                                        && #[trigger] g.has_edge(p, workers@[i]->task) implies
                                    done.contains(p) by {
                                    assert(i != widx);
                                    assert(workers@[i] == ws_before[i]);
                                    assert(done_before.contains(p));
                                }
                                assert forall|i: int|
                                    0 <= i < workers@.len() && (
                                    #[trigger] workers@[i]) is Working implies (((workers@[i]->task)
                                    as nat) < g.task_count() && !done.contains(workers@[i]->task)
                                    && 1 <= workers@[i]->remaining <= 26 + fixed) by {
                                    assert(i != widx);
                                    assert(workers@[i] == ws_before[i]);
                                    assert(holds_task(workers@, workers@[i]->task)) by {}
                                    assert(workers@[i]->task != task);
                                }
                            }
                        }
                    } else {
                        proof {
                            assert(delta as int <= remaining);
                            assert(delta < remaining);
                        }
                        workers[widx] = Worker::Working { task, remaining: remaining - delta };
                        proof {
                            // the busy-task set is unchanged
                            assert forall|u: usize| #[trigger] holds_task(workers@, u) implies
                                holds_task(ws_before, u) by {
                                let i = choose|i: int|
                                    0 <= i < workers@.len() && (#[trigger] workers@[i]) is Working
                                        && workers@[i]->task == u;
                                if i == widx {
                                    assert(ws_before[i] is Working && ws_before[i]->task == u);
                                } else {
                                    assert(ws_before[i] == workers@[i]);
                                }
                            }
                            assert forall|u: usize| holds_task(ws_before, u) implies
                                #[trigger] holds_task(workers@, u) by {
                                let i = choose|i: int|
                                    0 <= i < ws_before.len() && (#[trigger] ws_before[i]) is Working
                                        && ws_before[i]->task == u;
                                if i == widx {
                                    assert(workers@[i] is Working && workers@[i]->task == u);
                                } else {
                                    assert(workers@[i] == ws_before[i]);
                                }
                            }
                            assert(busy_tasks(workers@) =~= busy_tasks(ws_before));
                            assert(finished_pre(ws1, delta as int, widx as int + 1) =~= finished_pre(
                                ws1,
                                delta as int,
                                widx as int,
                            ));
                            assert(workers_ok(*g, workers@, done, fixed)) by {
                                assert forall|i: int, jq: int|
                                    0 <= i < jq < workers@.len() && (
                                    #[trigger] workers@[i]) is Working && (
                                    #[trigger] workers@[jq]) is Working implies workers@[i]->task
                                    != workers@[jq]->task by {
                                    assert(ws_before[i] is Working && ws_before[jq] is Working);
                                    assert(ws_before[i]->task == workers@[i]->task);
                                    assert(ws_before[jq]->task == workers@[jq]->task);
                                }
                            }
                        }
                    }
                },
                Worker::Idle => {
                    proof {
                        assert(finished_pre(ws1, delta as int, widx as int + 1) =~= finished_pre(
                            ws1,
                            delta as int,
                            widx as int,
                        ));
                    }
                },
            }
            widx = widx + 1;
        }
        proof {
            // this round matches one unfolding of the simulation
            assert(workers@ =~= advance_workers(ws1, delta as int));
            let fin = finished_tasks(ws1, delta as int);
            assert(done == done_pre + fin);
            assert(done.len() <= n) by {
                lemma_distinct_bounded_len(done, n as nat);
            }
            assert(fin.len() >= 1);
            lemma_sim_round(
                *g,
                clock_pre,
                ws0,
                done_pre,
                fixed,
                ws1,
                delta as int,
                done,
                workers@,
            );
            lemma_clock_step(*g, clock_pre, done_pre.len() as int, delta as int, fixed);
            assert(clock <= (done.len() as int) * (26 + fixed)) by {
                vstd::arithmetic::mul::lemma_mul_inequality(
                    done_pre.len() as int + 1,
                    done.len() as int,
                    26 + fixed,
                );
            }
        }
    }
}

/// The completion list collects exactly the busy workers whose remaining
/// time equals `delta`, and is empty only if there are none.
proof fn lemma_finished_pre_props(ws: Seq<Worker>, delta: int, j: int)
    requires
        0 <= j <= ws.len(),
    ensures
        (exists|i: int|
            0 <= i < j && (#[trigger] ws[i]) is Working && ws[i]->remaining == delta)
            ==> finished_pre(ws, delta, j).len() >= 1,
    decreases j,
{
    if j > 0 {
        lemma_finished_pre_props(ws, delta, j - 1);
        if exists|i: int|
            0 <= i < j && (#[trigger] ws[i]) is Working && ws[i]->remaining == delta {
            let i = choose|i: int|
                0 <= i < j && (#[trigger] ws[i]) is Working && ws[i]->remaining == delta;
            if i < j - 1 {
                assert(finished_pre(ws, delta, j - 1).len() >= 1);
            }
        }
    }
}

/// The simulation is deterministic: any two results that satisfy the
/// contract of `simulate` for the same graph, worker count and overhead
/// agree on the total time and the completion order.
pub proof fn lemma_simulate_deterministic(
    g: TaskGraph,
    workers: nat,
    fixed_cost: int,
    t1: int,
    r1: Seq<char>,
    t2: int,
    r2: Seq<char>,
)
    requires
        sim_result(g, workers, fixed_cost) matches Some(p) && t1 == p.0 && r1 == concat_names(
            g,
            p.1,
        ),
        sim_result(g, workers, fixed_cost) matches Some(p) && t2 == p.0 && r2 == concat_names(
            g,
            p.1,
        ),
    ensures
        t1 == t2,
        r1 == r2,
{
}

/// The entries of the completion list all come from busy workers whose
/// remaining time equals `delta`, and they are pairwise distinct when no
/// two workers share a task.
proof fn lemma_finished_pre_elems(ws: Seq<Worker>, delta: int, j: int)
    requires
        0 <= j <= ws.len(),
        forall|a: int, b: int|
            0 <= a < b < ws.len() && (#[trigger] ws[a]) is Working && (#[trigger] ws[b]) is Working
                ==> ws[a]->task != ws[b]->task,
    ensures
        forall|z: int|
            0 <= z < finished_pre(ws, delta, j).len() ==> exists|i: int|
                0 <= i < j && (#[trigger] ws[i]) is Working && ws[i]->remaining == delta
                    && ws[i]->task == (#[trigger] finished_pre(ws, delta, j)[z]),
        finished_pre(ws, delta, j).no_duplicates(),
    decreases j,
{
    if j > 0 {
        lemma_finished_pre_elems(ws, delta, j - 1);
        let rest = finished_pre(ws, delta, j - 1);
        let fin = finished_pre(ws, delta, j);
        if ws[j - 1] is Working && ws[j - 1]->remaining == delta {
            assert forall|z: int| 0 <= z < fin.len() implies exists|i: int|
                0 <= i < j && (#[trigger] ws[i]) is Working && ws[i]->remaining == delta
                    && ws[i]->task == (#[trigger] fin[z]) by {
                if z < rest.len() {
                    assert(fin[z] == rest[z]);
                    let i = choose|i: int|
                        0 <= i < j - 1 && (#[trigger] ws[i]) is Working && ws[i]->remaining
                            == delta && ws[i]->task == rest[z];
                    assert(0 <= i < j && ws[i] is Working && ws[i]->remaining == delta
                        && ws[i]->task == fin[z]);
                } else {
                    assert(fin[z] == ws[j - 1]->task);
                    assert(0 <= j - 1 < j && ws[j - 1] is Working && ws[j - 1]->remaining == delta
                        && ws[j - 1]->task == fin[z]);
                }
            }
            assert(fin.no_duplicates()) by {
                assert forall|a: int, b: int| 0 <= a < b < fin.len() implies fin[a] != fin[b] by {
                    if b < rest.len() {
                        assert(fin[a] == rest[a] && fin[b] == rest[b]);
                    } else {
                        assert(fin[b] == ws[j - 1]->task);
                        assert(fin[a] == rest[a]);
                        let i = choose|i: int|
                            0 <= i < j - 1 && (#[trigger] ws[i]) is Working && ws[i]->remaining
                                == delta && ws[i]->task == rest[a];
                        assert(ws[i]->task != ws[j - 1]->task);
                    }
                }
            }
        } else {
            assert(fin =~= rest);
        }
    }
}

/// Assigning tasks preserves the worker invariants: every new assignment
/// is an available task, excluded from `taken`, with a cost-bounded
/// remaining time.
proof fn lemma_assign_rec_ok(
    g: TaskGraph,
    ws: Seq<Worker>,
    done: Seq<usize>,
    taken: Set<usize>,
    fixed_cost: int,
)
    requires
        g.wf(),
        costable(g),
        0 <= fixed_cost <= i64::MAX - 26,
        workers_ok(g, ws, done, fixed_cost),
        forall|i: int|
            0 <= i < ws.len() && (#[trigger] ws[i]) is Working ==> taken.contains(ws[i]->task),
    ensures
        workers_ok(g, assign_rec(g, ws, done, taken, fixed_cost), done, fixed_cost),
        assign_rec(g, ws, done, taken, fixed_cost).len() == ws.len(),
        forall|i: int|
            0 <= i < ws.len() && (#[trigger] assign_rec(g, ws, done, taken, fixed_cost)[i])
                is Working && !(ws[i] is Working) ==> !taken.contains(
                assign_rec(g, ws, done, taken, fixed_cost)[i]->task,
            ),
    decreases ws.len(),
{
    if ws.len() > 0 {
        let res = assign_rec(g, ws, done, taken, fixed_cost);
        if ws[0] is Idle && (exists|t: usize| min_avail(g, done, taken, t)) {
            let t = choose|t: usize| min_avail(g, done, taken, t);
            let w0 = Worker::Working {
                task: t,
                remaining: cost_of(g.name_at(t), fixed_cost) as i64,
            };
            assert(1 <= cost_of(g.name_at(t), fixed_cost) <= 26 + fixed_cost) by {
                assert((t as nat) < g.task_count());
                assert(g.name_at(t).len() >= 1 && 'A' as u32 <= g.name_at(t)[0] as u32 <= 'Z'
                    as u32);
            }
            let tail = ws.skip(1);
            assert(forall|i: int|
                0 <= i < tail.len() && (#[trigger] tail[i]) is Working ==> taken.insert(t)
                    .contains(tail[i]->task)) by {
                assert forall|i: int|
                    0 <= i < tail.len() && (#[trigger] tail[i]) is Working implies taken.insert(
                    t,
                ).contains(tail[i]->task) by {
                    assert(tail[i] == ws[i + 1]);
                    assert(taken.contains(ws[i + 1]->task));
                }
            }
            assert(workers_ok(g, tail, done, fixed_cost)) by {
                assert forall|i: int|
                    0 <= i < tail.len() && (#[trigger] tail[i]) is Working implies (((tail[i]->task)
                    as nat) < g.task_count() && !done.contains(tail[i]->task) && 1
                    <= tail[i]->remaining <= 26 + fixed_cost) by {
                    assert(tail[i] == ws[i + 1]);
                }
                assert forall|i: int, p: usize|
                    0 <= i < tail.len() && (#[trigger] tail[i]) is Working && #[trigger] g.has_edge(
                        p,
                        tail[i]->task,
                    ) implies done.contains(p) by {
                    assert(tail[i] == ws[i + 1]);
                    assert(g.has_edge(p, ws[i + 1]->task));
                }
                assert forall|a: int, b: int|
                    0 <= a < b < tail.len() && (#[trigger] tail[a]) is Working && (
                #[trigger] tail[b]) is Working implies tail[a]->task != tail[b]->task by {
                    assert(tail[a] == ws[a + 1] && tail[b] == ws[b + 1]);
                }
            }
            lemma_assign_rec_ok(g, tail, done, taken.insert(t), fixed_cost);
            let rec = assign_rec(g, tail, done, taken.insert(t), fixed_cost);
            assert(res =~= seq![w0] + rec);
            assert(workers_ok(g, res, done, fixed_cost)) by {
                assert forall|i: int|
                    0 <= i < res.len() && (#[trigger] res[i]) is Working implies (((res[i]->task)
                    as nat) < g.task_count() && !done.contains(res[i]->task) && 1
                    <= res[i]->remaining <= 26 + fixed_cost) by {
                    if i > 0 {
                        assert(res[i] == rec[i - 1]);
                    }
                }
                assert forall|i: int, p: usize|
                    0 <= i < res.len() && (#[trigger] res[i]) is Working && #[trigger] g.has_edge(
                        p,
                        res[i]->task,
                    ) implies done.contains(p) by {
                    if i > 0 {
                        assert(res[i] == rec[i - 1]);
                        assert(g.has_edge(p, rec[i - 1]->task));
                    }
                }
                assert forall|a: int, b: int|
                    0 <= a < b < res.len() && (#[trigger] res[a]) is Working && (
                #[trigger] res[b]) is Working implies res[a]->task != res[b]->task by {
                    if a == 0 {
                        assert(res[b] == rec[b - 1]);
                        if tail[b - 1] is Working {
                            assert(rec[b - 1] == tail[b - 1]) by {
                                assert(rec[b - 1]->task != t || rec[b - 1]->task == t);
                                lemma_assign_busy_unchanged(
                                    g,
                                    tail,
                                    done,
                                    taken.insert(t),
                                    fixed_cost,
                                    b - 1,
                                );
                            }
                            assert(taken.insert(t).contains(tail[b - 1]->task));
                            assert(tail[b - 1]->task != t) by {
                                if tail[b - 1]->task == t {
                                    assert(taken.contains(ws[b]->task));
                                    assert(ws[b] == tail[b - 1]);
                                    assert(false);
                                }
                            }
                        } else {
                            assert(!taken.insert(t).contains(rec[b - 1]->task));
                        }
                    } else {
                        assert(res[a] == rec[a - 1] && res[b] == rec[b - 1]);
                    }
                }
            }
            assert forall|i: int|
                0 <= i < ws.len() && (#[trigger] res[i]) is Working && !(ws[i]
                    is Working) implies !taken.contains(res[i]->task) by {
                if i == 0 {
                    assert(res[0] == w0);
                } else {
                    assert(res[i] == rec[i - 1]);
                    assert(tail[i - 1] == ws[i]);
                    assert(!taken.insert(t).contains(rec[i - 1]->task));
                }
            }
        } else {
            let tail = ws.skip(1);
            assert(workers_ok(g, tail, done, fixed_cost)) by {
                assert forall|i: int|
                    0 <= i < tail.len() && (#[trigger] tail[i]) is Working implies (((tail[i]->task)
                    as nat) < g.task_count() && !done.contains(tail[i]->task) && 1
                    <= tail[i]->remaining <= 26 + fixed_cost) by {
                    assert(tail[i] == ws[i + 1]);
                }
                assert forall|i: int, p: usize|
                    0 <= i < tail.len() && (#[trigger] tail[i]) is Working && #[trigger] g.has_edge(
                        p,
                        tail[i]->task,
                    ) implies done.contains(p) by {
                    assert(tail[i] == ws[i + 1]);
                    assert(g.has_edge(p, ws[i + 1]->task));
                }
                assert forall|a: int, b: int|
                    0 <= a < b < tail.len() && (#[trigger] tail[a]) is Working && (
                #[trigger] tail[b]) is Working implies tail[a]->task != tail[b]->task by {
                    assert(tail[a] == ws[a + 1] && tail[b] == ws[b + 1]);
                }
            }
            assert(forall|i: int|
                0 <= i < tail.len() && (#[trigger] tail[i]) is Working ==> taken.contains(
                    tail[i]->task,
                )) by {
                assert forall|i: int|
                    0 <= i < tail.len() && (#[trigger] tail[i]) is Working implies taken.contains(
                    tail[i]->task,
                ) by {
                    assert(tail[i] == ws[i + 1]);
                }
            }
            lemma_assign_rec_ok(g, tail, done, taken, fixed_cost);
            let rec = assign_rec(g, tail, done, taken, fixed_cost);
            assert(res =~= seq![ws[0]] + rec);
            assert(workers_ok(g, res, done, fixed_cost)) by {
                assert forall|i: int|
                    0 <= i < res.len() && (#[trigger] res[i]) is Working implies (((res[i]->task)
                    as nat) < g.task_count() && !done.contains(res[i]->task) && 1
                    <= res[i]->remaining <= 26 + fixed_cost) by {
                    if i > 0 {
                        assert(res[i] == rec[i - 1]);
                    }
                }
                assert forall|i: int, p: usize|
                    0 <= i < res.len() && (#[trigger] res[i]) is Working && #[trigger] g.has_edge(
                        p,
                        res[i]->task,
                    ) implies done.contains(p) by {
                    if i > 0 {
                        assert(res[i] == rec[i - 1]);
                        assert(g.has_edge(p, rec[i - 1]->task));
                    } else {
                        assert(g.has_edge(p, ws[0]->task));
                    }
                }
                assert forall|a: int, b: int|
                    0 <= a < b < res.len() && (#[trigger] res[a]) is Working && (
                #[trigger] res[b]) is Working implies res[a]->task != res[b]->task by {
                    if a == 0 {
                        assert(res[b] == rec[b - 1]);
                        if tail[b - 1] is Working {
                            lemma_assign_busy_unchanged(g, tail, done, taken, fixed_cost, b - 1);
                            assert(taken.contains(tail[b - 1]->task));
                            assert(ws[0]->task != tail[b - 1]->task) by {
                                assert(tail[b - 1] == ws[b]);
                            }
                        } else {
                            assert(!taken.contains(rec[b - 1]->task));
                            assert(taken.contains(ws[0]->task));
                        }
                    } else {
                        assert(res[a] == rec[a - 1] && res[b] == rec[b - 1]);
                    }
                }
            }
            assert forall|i: int|
                0 <= i < ws.len() && (#[trigger] res[i]) is Working && !(ws[i]
                    is Working) implies !taken.contains(res[i]->task) by {
                assert(i > 0);
                assert(res[i] == rec[i - 1]);
                assert(tail[i - 1] == ws[i]);
            }
        }
    }
}

/// Assignment leaves the already-busy workers unchanged.
proof fn lemma_assign_busy_unchanged(
    g: TaskGraph,
    ws: Seq<Worker>,
    done: Seq<usize>,
    taken: Set<usize>,
    fixed_cost: int,
    i: int,
)
    requires
        0 <= i < ws.len(),
        ws[i] is Working,
    ensures
        assign_rec(g, ws, done, taken, fixed_cost).len() == ws.len(),
        assign_rec(g, ws, done, taken, fixed_cost)[i] == ws[i],
    decreases ws.len(),
{
    lemma_assign_len(g, ws, done, taken, fixed_cost);
    if i > 0 {
        if ws[0] is Idle && (exists|t: usize| min_avail(g, done, taken, t)) {
            let t = choose|t: usize| min_avail(g, done, taken, t);
            assert(ws.skip(1)[i - 1] == ws[i]);
            lemma_assign_busy_unchanged(g, ws.skip(1), done, taken.insert(t), fixed_cost, i - 1);
        } else {
            assert(ws.skip(1)[i - 1] == ws[i]);
            lemma_assign_busy_unchanged(g, ws.skip(1), done, taken, fixed_cost, i - 1);
        }
    }
}

/// Assignment does not change the number of workers.
proof fn lemma_assign_len(
    g: TaskGraph,
    ws: Seq<Worker>,
    done: Seq<usize>,
    taken: Set<usize>,
    fixed_cost: int,
)
    ensures
        assign_rec(g, ws, done, taken, fixed_cost).len() == ws.len(),
    decreases ws.len(),
{
    if ws.len() > 0 {
        if ws[0] is Idle && (exists|t: usize| min_avail(g, done, taken, t)) {
            let t = choose|t: usize| min_avail(g, done, taken, t);
            lemma_assign_len(g, ws.skip(1), done, taken.insert(t), fixed_cost);
        } else {
            lemma_assign_len(g, ws.skip(1), done, taken, fixed_cost);
        }
    }
}

/// A successful simulation run yields a completion order that is a valid
/// history of the graph and covers every task.
proof fn lemma_sim_topo(g: TaskGraph, clock: int, ws: Seq<Worker>, done: Seq<usize>, fixed_cost: int)
    requires
        g.wf(),
        costable(g),
        0 <= fixed_cost <= i64::MAX - 26,
        workers_ok(g, ws, done, fixed_cost),
        topo_history(g, done),
        sim_rec(g, clock, ws, done, fixed_cost) is Some,
    ensures
        sim_rec(g, clock, ws, done, fixed_cost) matches Some(p) ==> topo_history(g, p.1)
            && p.1.len() == g.task_count(),
    decreases g.task_count() - done.len(),
{
    let ws1 = spec_assign(g, ws, done, fixed_cost);
    assert(forall|i: int|
        0 <= i < ws.len() && (#[trigger] ws[i]) is Working ==> busy_tasks(ws).contains(
            ws[i]->task,
        )) by {
        assert forall|i: int|
            0 <= i < ws.len() && (#[trigger] ws[i]) is Working implies busy_tasks(ws).contains(
            ws[i]->task,
        ) by {
            assert(holds_task(ws, ws[i]->task));
        }
    }
    lemma_assign_rec_ok(g, ws, done, busy_tasks(ws), fixed_cost);
    if !any_busy(ws1) {
    } else {
        let delta = min_remaining(ws1);
        let fin = finished_tasks(ws1, delta);
        if 1 <= fin.len() && done.len() + fin.len() <= g.task_count() {
            lemma_finished_pre_elems(ws1, delta, ws1.len() as int);
            lemma_min_remaining_pre(ws1, ws1.len() as int);
            let done2 = done + fin;
            assert(topo_history(g, done2)) by {
                assert(done2.no_duplicates()) by {
                    assert forall|a: int, b: int|
                        0 <= a < b < done2.len() implies done2[a] != done2[b] by {
                        if b < done.len() {
                            assert(done2[a] == done[a] && done2[b] == done[b]);
                        } else if a >= done.len() {
                            assert(done2[a] == fin[a - done.len()]);
                            assert(done2[b] == fin[b - done.len()]);
                        } else {
                            assert(done2[a] == done[a]);
                            assert(done2[b] == fin[b - done.len()]);
                            let i = choose|i: int|
                                0 <= i < ws1.len() && (#[trigger] ws1[i]) is Working
                                    && ws1[i]->remaining == delta && ws1[i]->task == fin[b
                                    - done.len()];
                            assert(!done.contains(ws1[i]->task));
                            assert(done.contains(done[a]));
                        }
                    }
                }
                assert forall|q: int| 0 <= q < done2.len() implies ((#[trigger] done2[q]) as nat)
                    < g.task_count() by {
                    if q >= done.len() {
                        assert(done2[q] == fin[q - done.len()]);
                        let i = choose|i: int|
                            0 <= i < ws1.len() && (#[trigger] ws1[i]) is Working
                                && ws1[i]->remaining == delta && ws1[i]->task == fin[q
                                - done.len()];
                    } else {
                        assert(done2[q] == done[q]);
                    }
                }
                assert forall|b: int, p: usize|
                    0 <= b < done2.len() && #[trigger] g.has_edge(p, done2[b]) implies exists|
                    a: int,
                |
                    0 <= a < b && done2[a] == p by {
                    if b < done.len() {
                        assert(done2[b] == done[b]);
                        let a = choose|a: int| 0 <= a < b && done[a] == p;
                        assert(done2[a] == p);
                    } else {
                        assert(done2[b] == fin[b - done.len()]);
                        let i = choose|i: int|
                            0 <= i < ws1.len() && (#[trigger] ws1[i]) is Working
                                && ws1[i]->remaining == delta && ws1[i]->task == fin[b
                                - done.len()];
                        assert(g.has_edge(p, ws1[i]->task));
                        assert(done.contains(p));
                        let a = choose|a: int| 0 <= a < done.len() && done[a] == p;
                        assert(done2[a] == p);
                    }
                }
            }
            let ws2 = advance_workers(ws1, delta);
            assert(workers_ok(g, ws2, done2, fixed_cost)) by {
                assert forall|i: int|
                    0 <= i < ws2.len() && (#[trigger] ws2[i]) is Working implies (((ws2[i]->task)
                    as nat) < g.task_count() && !done2.contains(ws2[i]->task) && 1
                    <= ws2[i]->remaining <= 26 + fixed_cost) by {
                    assert(ws2[i] == step_worker(ws1[i], delta));
                    assert(ws1[i] is Working && ws1[i]->remaining != delta);
                    assert(delta <= ws1[i]->remaining);
                    assert(ws2[i]->task == ws1[i]->task);
                    assert(!done2.contains(ws1[i]->task)) by {
                        if done2.contains(ws1[i]->task) {
                            let z = choose|z: int|
                                0 <= z < done2.len() && done2[z] == ws1[i]->task;
                            if z < done.len() {
                                assert(done.contains(done[z]));
                                assert(false);
                            } else {
                                assert(done2[z] == fin[z - done.len()]);
                                let iw = choose|iw: int|
                                    0 <= iw < ws1.len() && (#[trigger] ws1[iw]) is Working
                                        && ws1[iw]->remaining == delta && ws1[iw]->task == fin[z
                                        - done.len()];
                                assert(iw != i);
                                if iw < i {
                                    assert(ws1[iw]->task != ws1[i]->task);
                                } else {
                                    assert(ws1[i]->task != ws1[iw]->task);
                                }
                                assert(false);
                            }
                        }
                    }
                }
                assert forall|i: int, p: usize|
                    0 <= i < ws2.len() && (#[trigger] ws2[i]) is Working && #[trigger] g.has_edge(
                        p,
                        ws2[i]->task,
                    ) implies done2.contains(p) by {
                    assert(ws2[i] == step_worker(ws1[i], delta));
                    assert(ws1[i] is Working);
                    assert(g.has_edge(p, ws1[i]->task));
                    assert(done.contains(p));
                    let a = choose|a: int| 0 <= a < done.len() && done[a] == p;
                    assert(done2[a] == p);
                }
                assert forall|a: int, b: int|
                    0 <= a < b < ws2.len() && (#[trigger] ws2[a]) is Working && (
                #[trigger] ws2[b]) is Working implies ws2[a]->task != ws2[b]->task by {
                    assert(ws2[a] == step_worker(ws1[a], delta));
                    assert(ws2[b] == step_worker(ws1[b], delta));
                    assert(ws1[a] is Working && ws1[b] is Working);
                }
            }
            lemma_sim_topo(g, clock + delta, ws2, done2, fixed_cost);
        }
    }
}

/// A graph with no complete topological enumeration makes the simulation
/// stall, whatever the worker count or overhead.
pub proof fn lemma_cyclic_simulate_stalls(g: TaskGraph, workers: nat, fixed_cost: int)
    requires
        g.wf(),
        costable(g),
        0 <= fixed_cost <= i64::MAX - 26,
        !acyclic(g),
    ensures
        sim_result(g, workers, fixed_cost) is None,
{
    if sim_result(g, workers, fixed_cost) is Some {
        let ws = Seq::new(workers, |i: int| Worker::Idle);
        assert(workers_ok(g, ws, Seq::<usize>::empty(), fixed_cost));
        assert(topo_history(g, Seq::<usize>::empty()));
        lemma_sim_topo(g, 0, ws, Seq::<usize>::empty(), fixed_cost);
        let p = sim_result(g, workers, fixed_cost)->Some_0;
        assert(is_complete_topo(g, p.1)) by {
            assert forall|a: int, b: int|
                0 <= a < p.1.len() && 0 <= b < p.1.len() && #[trigger] g.has_edge(
                    p.1[a],
                    p.1[b],
                ) implies a < b by {
                let a2 = choose|a2: int| 0 <= a2 < b && p.1[a2] == p.1[a];
                if a != a2 {
                    if a < a2 {
                        assert(p.1[a] != p.1[a2]);
                    } else {
                        assert(p.1[a2] != p.1[a]);
                    }
                }
            }
        }
        assert(false);
    }
}

/// With a single worker the simulation completes tasks in exactly the
/// serial walk's order, and completes every task exactly when the serial
/// walk does.
pub proof fn lemma_single_worker_matches_serial(g: TaskGraph, fixed_cost: int)
    requires
        g.wf(),
        costable(g),
        0 <= fixed_cost <= i64::MAX - 26,
    ensures
        (sim_result(g, 1, fixed_cost) is Some) <==> serial_order(g).len() == g.task_count(),
        sim_result(g, 1, fixed_cost) matches Some(p) ==> p.1 == serial_order(g),
{
    assert(Seq::new(1, |i: int| Worker::Idle) =~= seq![Worker::Idle]);
    lemma_single_worker_rec(g, 0, Seq::<usize>::empty(), fixed_cost);
}

proof fn lemma_single_worker_rec(g: TaskGraph, clock: int, done: Seq<usize>, fixed_cost: int)
    requires
        g.wf(),
        costable(g),
        0 <= fixed_cost <= i64::MAX - 26,
        done.no_duplicates(),
        forall|q: int| 0 <= q < done.len() ==> ((#[trigger] done[q]) as nat) < g.task_count(),
    ensures
        (sim_rec(g, clock, seq![Worker::Idle], done, fixed_cost) is Some) <==> serial_order_rec(
            g,
            done,
        ).len() == g.task_count(),
        sim_rec(g, clock, seq![Worker::Idle], done, fixed_cost) matches Some(p) ==> p.1
            == serial_order_rec(g, done),
    decreases g.task_count() - done.len(),
{
    let ws = seq![Worker::Idle];
    assert(busy_tasks(ws) =~= Set::<usize>::empty()) by {
        assert forall|t: usize| !(#[trigger] busy_tasks(ws).contains(t)) by {
            if holds_task(ws, t) {
                let i = choose|i: int|
                    0 <= i < ws.len() && (#[trigger] ws[i]) is Working && ws[i]->task == t;
                assert(false);
            }
        }
    }
    let ws1 = spec_assign(g, ws, done, fixed_cost);
    if exists|t: usize| min_avail(g, done, Set::empty(), t) {
        let t = choose|t: usize| min_avail(g, done, Set::empty(), t);
        let c = cost_of(g.name_at(t), fixed_cost);
        assert(1 <= c <= 26 + fixed_cost) by {
            assert((t as nat) < g.task_count());
            assert(g.name_at(t).len() >= 1 && 'A' as u32 <= g.name_at(t)[0] as u32 <= 'Z' as u32);
        }
        let w0 = Worker::Working { task: t, remaining: c as i64 };
        assert(ws1 =~= seq![w0]) by {
            assert(ws.skip(1) =~= Seq::<Worker>::empty());
            assert(assign_rec(g, Seq::<Worker>::empty(), done, Set::empty().insert(t), fixed_cost)
                =~= Seq::<Worker>::empty());
            assert(seq![w0] + Seq::<Worker>::empty() =~= seq![w0]);
        }
        assert(any_busy(ws1)) by {
            assert(ws1[0] is Working);
        }
        let delta = min_remaining(ws1);
        assert(delta == c) by {
            assert(ws1.len() == 1);
            assert(ws1[0] == w0);
            assert(w0->remaining == c as i64);
            assert(c as i64 as int == c);
            assert(min_remaining_pre(ws1, 0) == i64::MAX as int);
            if c < i64::MAX as int {
                assert(ws1[0] is Working && ws1[0]->remaining < i64::MAX as int);
                assert(min_remaining_pre(ws1, 1) == c);
            } else {
                assert(min_remaining_pre(ws1, 1) == i64::MAX as int);
            }
        }
        let fin = finished_tasks(ws1, delta);
        assert(fin =~= seq![t]) by {
            assert(finished_pre(ws1, delta, 1) =~= finished_pre(ws1, delta, 0).push(t));
            assert(finished_pre(ws1, delta, 0) =~= Seq::<usize>::empty());
        }
        assert(done.len() < g.task_count()) by {
            assert(!done.contains(t));
            lemma_distinct_bounded_len(done.push(t), g.task_count());
            assert(done.push(t).no_duplicates()) by {
                assert forall|a: int, b: int|
                    0 <= a < b < done.push(t).len() implies done.push(t)[a] != done.push(t)[b] by {
                    if b < done.len() {
                        assert(done.push(t)[a] == done[a] && done.push(t)[b] == done[b]);
                    } else {
                        assert(done.push(t)[b] == t);
                        assert(done.push(t)[a] == done[a]);
                        assert(done.contains(done[a]));
                    }
                }
            }
        }
        let done2 = done + fin;
        assert(done2 =~= done.push(t));
        assert(done2.no_duplicates()) by {
            assert forall|a: int, b: int|
                0 <= a < b < done2.len() implies done2[a] != done2[b] by {
                if b < done.len() {
                    assert(done2[a] == done[a] && done2[b] == done[b]);
                } else {
                    assert(done2[b] == t);
                    assert(done2[a] == done[a]);
                    assert(done.contains(done[a]));
                }
            }
        }
        let ws2 = advance_workers(ws1, delta);
        assert(ws2 =~= seq![Worker::Idle]);
        assert(sim_rec(g, clock, ws, done, fixed_cost) == sim_rec(
            g,
            clock + delta,
            ws2,
            done2,
            fixed_cost,
        ));
        assert(serial_order_rec(g, done) == serial_order_rec(g, done.push(t)));
        lemma_single_worker_rec(g, clock + delta, done2, fixed_cost);
    } else {
        assert(ws1 =~= seq![Worker::Idle]) by {
            assert(ws.skip(1) =~= Seq::<Worker>::empty());
            assert(assign_rec(g, Seq::<Worker>::empty(), done, Set::<usize>::empty(), fixed_cost)
                =~= Seq::<Worker>::empty());
            assert(seq![ws[0]] + Seq::<Worker>::empty() =~= seq![ws[0]]);
        }
        assert(!any_busy(ws1)) by {
            if any_busy(ws1) {
                let i = choose|i: int| 0 <= i < ws1.len() && (#[trigger] ws1[i]) is Working;
                assert(false);
            }
        }
        assert(serial_order_rec(g, done) == done);
        if done.len() == g.task_count() {
        } else {
            assert(serial_order_rec(g, done).len() != g.task_count());
        }
    }
}

/// Membership in a pushed sequence.
proof fn lemma_push_contains(s: Seq<usize>, x: usize, y: usize)
    ensures
        s.push(x).contains(y) <==> (s.contains(y) || y == x),
{
    if s.contains(y) {
        let j = choose|j: int| 0 <= j < s.len() && s[j] == y;
        assert(s.push(x)[j] == y);
    }
    if y == x {
        assert(s.push(x).last() == y);
    }
    if s.push(x).contains(y) {
        let j = choose|j: int| 0 <= j < s.push(x).len() && s.push(x)[j] == y;
        if j < s.len() {
            assert(s[j] == y);
        }
    }
}

} // verus!
