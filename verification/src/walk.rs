//! Following `\include` directives from file to file.
//!
//! Which files there are, and what they include, is found out on the way: a [`Walk`] says which file
//! to look at next and is told what it includes.
use vstd::prelude::*;
use crate::text::same;

verus! {

/// A walk over the files reachable from one.
#[derive(Debug)]
pub struct Walk {
    /// The files found so far, in the order they were met.
    pub order: Vec<String>,
    /// The files that may still have to be looked at, the next one last.
    pub stack: Vec<String>,
}

/// The names of files.
pub open spec fn names(files: Seq<String>) -> Seq<Seq<char>> {
    files.map_values(|file: String| file@)
}

/// Takes files off the stack until one is new.
pub open spec fn next_new(order: Seq<Seq<char>>, stack: Seq<Seq<char>>) -> Option<
    (Seq<char>, Seq<Seq<char>>),
>
    decreases stack.len(),
{
    if stack.len() == 0 {
        None
    } else if order.contains(stack.last()) {
        next_new(order, stack.drop_last())
    } else {
        Some((stack.last(), stack.drop_last()))
    }
}

/// Whether `files` holds `name`.
pub fn holds_name(files: &Vec<String>, name: &str) -> (r: bool)
    ensures
        r == names(files@).contains(name@),
{
    let mut k: usize = 0;
    while k < files.len()
        invariant
            k <= files@.len(),
            forall|j: int| 0 <= j < k ==> (#[trigger] files@[j])@ != name@,
        decreases files.len() - k,
    {
        if same(files[k].as_str(), name) {
            assert(names(files@)[k as int] == name@);
            return true;
        }
        k = k + 1;
    }
    assert forall|j: int| 0 <= j < names(files@).len() implies names(files@)[j] != name@ by {
        assert(files@[j]@ != name@);
    }
    false
}

impl Walk {
    /// Every file met was met once.
    pub open spec fn wf(self) -> bool {
        names(self.order@).no_duplicates()
    }

    /// Starts at `file`.
    pub fn new(file: String) -> (r: Self)
        ensures
            r.wf(),
            names(r.order@) == Seq::<Seq<char>>::empty(),
            names(r.stack@) == seq![file@],
    {
        let mut stack: Vec<String> = Vec::new();
        stack.push(file);
        let order: Vec<String> = Vec::new();
        assert(names(order@) =~= Seq::empty());
        assert(names(stack@) =~= seq![file@]);
        Self { order, stack }
    }

    /// The next file to look at, which is then among those found; `None` when every file was.
    pub fn step(&mut self) -> (r: Option<String>)
        requires
            old(self).wf(),
        ensures
            final(self).wf(),
            match next_new(names(old(self).order@), names(old(self).stack@)) {
                Some((file, rest)) => {
                    &&& r is Some
                    &&& r->0@ == file
                    &&& names(final(self).order@) == names(old(self).order@).push(file)
                    &&& names(final(self).stack@) == rest
                },
                None => {
                    &&& r is None
                    &&& names(final(self).order@) == names(old(self).order@)
                    &&& names(final(self).stack@) == Seq::<Seq<char>>::empty()
                },
            },
    {
        let ghost order = names(self.order@);
        let ghost stack = names(self.stack@);
        while self.stack.len() > 0
            invariant
                self.wf(),
                order == names(old(self).order@),
                stack == names(old(self).stack@),
                names(self.order@) == order,
                next_new(order, stack) == next_new(order, names(self.stack@)),
            decreases self.stack.len(),
        {
            let ghost before = names(self.stack@);
            let file = self.stack.pop().unwrap();
            assert(names(self.stack@) =~= before.drop_last());
            assert(before.last() == file@);
            if !holds_name(&self.order, file.as_str()) {
                let copy = file.clone();
                let ghost met = self.order@;
                self.order.push(file);
                assert(names(self.order@) =~= names(met).push(file@));
                assert(next_new(order, before) == Some((file@, names(self.stack@))));
                return Some(copy);
            }
        }
        assert(names(self.stack@) =~= Seq::empty());
        None
    }

    /// Takes note of what the file last looked at includes.
    pub fn found(&mut self, targets: Vec<String>)
        requires
            old(self).wf(),
        ensures
            final(self).wf(),
            final(self).order == old(self).order,
            names(final(self).stack@) == names(old(self).stack@) + names(targets@),
    {
        let ghost before = names(self.stack@);
        let ghost order = self.order;
        let ghost all = targets@;
        assert(before =~= before + names(all.subrange(0, 0)));
        for target in it: targets
            invariant
                it.seq() == all,
                self.order == order,
                names(self.stack@) == before + names(all.subrange(0, it.index() as int)),
        {
            let ghost k = it.index() as int;
            let ghost last = names(self.stack@);
            self.stack.push(target);
            assert(names(self.stack@) =~= last.push(target@));
            assert(names(all.subrange(0, k + 1)) =~= names(all.subrange(0, k)).push(target@));
            assert(names(self.stack@) =~= before + names(all.subrange(0, k + 1)));
        }
        assert(all.subrange(0, all.len() as int) =~= all);
    }
}

/// What a walk has met so far: the files found and those still to look at.
pub struct Progress {
    pub order: Seq<Seq<char>>,
    pub stack: Seq<Seq<char>>,
}

/// Where a walk stands after looking at up to `n` files, each including what `edges` says.
pub open spec fn walked(root: Seq<char>, edges: spec_fn(Seq<char>) -> Seq<Seq<char>>, n: nat) -> Progress
    decreases n,
{
    if n == 0 {
        Progress { order: Seq::empty(), stack: seq![root] }
    } else {
        let before = walked(root, edges, (n - 1) as nat);
        match next_new(before.order, before.stack) {
            Some((file, rest)) => Progress {
                order: before.order.push(file),
                stack: rest + edges(file),
            },
            None => Progress { order: before.order, stack: Seq::empty() },
        }
    }
}

/// Whether the file at `i` of a path includes the one after it.
pub open spec fn leads_on(edges: spec_fn(Seq<char>) -> Seq<Seq<char>>, path: Seq<Seq<char>>, i: int) -> bool {
    edges(path[i]).contains(path[i + 1])
}

/// Whether each file of `path` includes the one after it, from `root` on.
pub open spec fn is_path(
    root: Seq<char>,
    edges: spec_fn(Seq<char>) -> Seq<Seq<char>>,
    path: Seq<Seq<char>>,
) -> bool {
    &&& path.len() > 0
    &&& path[0] == root
    &&& forall|i: int| 0 <= i < path.len() - 1 ==> #[trigger] leads_on(edges, path, i)
}

/// Whether `file` can be reached from `root`.
pub open spec fn reachable(
    root: Seq<char>,
    edges: spec_fn(Seq<char>) -> Seq<Seq<char>>,
    file: Seq<char>,
) -> bool {
    exists|path: Seq<Seq<char>>| #[trigger] is_path(root, edges, path) && path.last() == file
}

/// What a file that can be reached includes can be reached.
proof fn lemma_reachable_further(
    root: Seq<char>,
    edges: spec_fn(Seq<char>) -> Seq<Seq<char>>,
    from: Seq<char>,
    file: Seq<char>,
)
    requires
        reachable(root, edges, from),
        edges(from).contains(file),
    ensures
        reachable(root, edges, file),
{
    let path = choose|path: Seq<Seq<char>>|
        #[trigger] is_path(root, edges, path) && path.last() == from;
    let longer = path.push(file);
    assert forall|i: int| 0 <= i < longer.len() - 1 implies #[trigger] leads_on(
        edges,
        longer,
        i,
    ) by {
        if i < path.len() - 1 {
            assert(leads_on(edges, path, i));
        }
    }
    assert(is_path(root, edges, longer));
    assert(longer.last() == file);
}

proof fn lemma_next_new(order: Seq<Seq<char>>, stack: Seq<Seq<char>>)
    ensures
        match next_new(order, stack) {
            Some((file, rest)) => {
                &&& stack.contains(file)
                &&& !order.contains(file)
                &&& forall|k: int| 0 <= k < rest.len() ==> stack.contains(#[trigger] rest[k])
                &&& forall|k: int|
                    0 <= k < stack.len() ==> order.contains(#[trigger] stack[k]) || stack[k]
                        == file || rest.contains(stack[k])
            },
            None => forall|k: int| 0 <= k < stack.len() ==> order.contains(#[trigger] stack[k]),
        },
    decreases stack.len(),
{
    if stack.len() > 0 {
        let shorter = stack.drop_last();
        if order.contains(stack.last()) {
            lemma_next_new(order, shorter);
            match next_new(order, shorter) {
                Some((file, rest)) => {
                    let j = choose|j: int| 0 <= j < shorter.len() && shorter[j] == file;
                    assert(stack[j] == file);
                    assert forall|k: int| 0 <= k < rest.len() implies stack.contains(
                        #[trigger] rest[k],
                    ) by {
                        assert(shorter.contains(rest[k]));
                        let m = choose|m: int| 0 <= m < shorter.len() && shorter[m] == rest[k];
                        assert(stack[m] == rest[k]);
                    }
                    assert forall|k: int| 0 <= k < stack.len() implies order.contains(
                        #[trigger] stack[k],
                    ) || stack[k] == file || rest.contains(stack[k]) by {
                        if k < shorter.len() {
                            assert(shorter[k] == stack[k]);
                        }
                    }
                },
                None => {
                    assert forall|k: int| 0 <= k < stack.len() implies order.contains(
                        #[trigger] stack[k],
                    ) by {
                        if k < shorter.len() {
                            assert(shorter[k] == stack[k]);
                        }
                    }
                },
            }
        } else {
            assert(stack[stack.len() - 1] == stack.last());
            assert forall|k: int| 0 <= k < shorter.len() implies stack.contains(
                #[trigger] shorter[k],
            ) by {
                assert(stack[k] == shorter[k]);
            }
            assert forall|k: int| 0 <= k < stack.len() implies order.contains(#[trigger] stack[k])
                || stack[k] == stack.last() || shorter.contains(stack[k]) by {
                if k < shorter.len() {
                    assert(shorter[k] == stack[k]);
                }
            }
        }
    }
}

/// Whatever a file that was looked at includes was met.
pub open spec fn accounted(progress: Progress, edges: spec_fn(Seq<char>) -> Seq<Seq<char>>) -> bool {
    forall|i: int, k: int|
        0 <= i < progress.order.len() && 0 <= k < edges(progress.order[i]).len()
            ==> progress.order.contains(#[trigger] edges(progress.order[i])[k])
            || progress.stack.contains(edges(progress.order[i])[k])
}

/// A walk never meets a file twice, and meets only files that can be reached.
pub proof fn law_a_walk_meets_each_reachable_file_once(
    root: Seq<char>,
    edges: spec_fn(Seq<char>) -> Seq<Seq<char>>,
    n: nat,
)
    ensures
        walked(root, edges, n).order.no_duplicates(),
        forall|k: int|
            0 <= k < walked(root, edges, n).order.len() ==> reachable(
                root,
                edges,
                #[trigger] walked(root, edges, n).order[k],
            ),
        forall|k: int|
            0 <= k < walked(root, edges, n).stack.len() ==> reachable(
                root,
                edges,
                #[trigger] walked(root, edges, n).stack[k],
            ),
    decreases n,
{
    if n == 0 {
        assert(is_path(root, edges, seq![root]));
        assert(seq![root].last() == root);
    } else {
        let m = (n - 1) as nat;
        law_a_walk_meets_each_reachable_file_once(root, edges, m);
        let before = walked(root, edges, m);
        let after = walked(root, edges, n);
        lemma_next_new(before.order, before.stack);
        match next_new(before.order, before.stack) {
            Some((file, rest)) => {
                let j = choose|j: int| 0 <= j < before.stack.len() && before.stack[j] == file;
                assert(reachable(root, edges, before.stack[j]));
                assert forall|k: int| 0 <= k < after.order.len() implies reachable(
                    root,
                    edges,
                    #[trigger] after.order[k],
                ) by {
                    if k < before.order.len() {
                        assert(after.order[k] == before.order[k]);
                    }
                }
                assert forall|k: int| 0 <= k < after.stack.len() implies reachable(
                    root,
                    edges,
                    #[trigger] after.stack[k],
                ) by {
                    if k < rest.len() {
                        assert(after.stack[k] == rest[k]);
                        assert(before.stack.contains(rest[k]));
                        let i = choose|i: int|
                            0 <= i < before.stack.len() && before.stack[i] == rest[k];
                        assert(reachable(root, edges, before.stack[i]));
                    } else {
                        assert(after.stack[k] == edges(file)[k - rest.len()]);
                        assert(edges(file).contains(after.stack[k]));
                        lemma_reachable_further(root, edges, file, after.stack[k]);
                    }
                }
            },
            None => {},
        }
    }
}

proof fn lemma_accounted(
    root: Seq<char>,
    edges: spec_fn(Seq<char>) -> Seq<Seq<char>>,
    n: nat,
)
    ensures
        accounted(walked(root, edges, n), edges),
        walked(root, edges, n).order.contains(root) || walked(root, edges, n).stack.contains(root),
        walked(root, edges, n).order.len() > 0 ==> walked(root, edges, n).order[0] == root,
    decreases n,
{
    if n == 0 {
        assert(walked(root, edges, 0).stack[0] == root);
    } else {
        let m = (n - 1) as nat;
        lemma_accounted(root, edges, m);
        let before = walked(root, edges, m);
        let after = walked(root, edges, n);
        lemma_next_new(before.order, before.stack);
        match next_new(before.order, before.stack) {
            Some((file, rest)) => {
                assert forall|x: Seq<char>|
                    before.order.contains(x) || before.stack.contains(x) implies after.order.contains(
                    x,
                ) || after.stack.contains(x) by {
                    if before.order.contains(x) {
                        let i = choose|i: int| 0 <= i < before.order.len() && before.order[i] == x;
                        assert(after.order[i] == x);
                    } else {
                        let i = choose|i: int| 0 <= i < before.stack.len() && before.stack[i] == x;
                        assert(before.order.contains(before.stack[i]) || before.stack[i] == file
                            || rest.contains(before.stack[i]));
                        if x == file {
                            assert(after.order[before.order.len() as int] == x);
                        } else {
                            let j = choose|j: int| 0 <= j < rest.len() && rest[j] == x;
                            assert(after.stack[j] == x);
                        }
                    }
                }
                assert forall|i: int, k: int|
                    0 <= i < after.order.len() && 0 <= k < edges(after.order[i]).len() implies after.order.contains(
                    #[trigger] edges(after.order[i])[k],
                ) || after.stack.contains(edges(after.order[i])[k]) by {
                    if i < before.order.len() {
                        assert(after.order[i] == before.order[i]);
                        let x = edges(before.order[i])[k];
                        assert(before.order.contains(x) || before.stack.contains(x));
                    } else {
                        assert(after.stack[rest.len() + k] == edges(file)[k]);
                    }
                }
                if before.order.len() == 0 {
                    if m > 0 {
                        lemma_first_step(root, edges, m);
                    }
                    assert(before.stack =~= seq![root]);
                }
            },
            None => {
                assert forall|x: Seq<char>| before.stack.contains(x) implies before.order.contains(
                    x,
                ) by {
                    let i = choose|i: int| 0 <= i < before.stack.len() && before.stack[i] == x;
                    assert(before.order.contains(before.stack[i]));
                }
            },
        }
    }
}

/// The first step of a walk finds its root.
proof fn lemma_first_step(
    root: Seq<char>,
    edges: spec_fn(Seq<char>) -> Seq<Seq<char>>,
    n: nat,
)
    requires
        n > 0,
    ensures
        walked(root, edges, n).order.len() > 0,
    decreases n,
{
    if n == 1 {
        let before = walked(root, edges, 0);
        assert(before.stack.last() == root);
        assert(!before.order.contains(root));
    } else {
        lemma_first_step(root, edges, (n - 1) as nat);
    }
}

/// A walk that has nothing left to look at has met its root first, and everything that can be reached
/// from there, round in circles or not.
pub proof fn law_a_finished_walk_is_closed(
    root: Seq<char>,
    edges: spec_fn(Seq<char>) -> Seq<Seq<char>>,
    n: nat,
    file: Seq<char>,
)
    requires
        walked(root, edges, n).stack.len() == 0,
        reachable(root, edges, file),
    ensures
        walked(root, edges, n).order.contains(file),
        walked(root, edges, n).order[0] == root,
{
    lemma_accounted(root, edges, n);
    let path = choose|path: Seq<Seq<char>>|
        #[trigger] is_path(root, edges, path) && path.last() == file;
    lemma_path_met(root, edges, n, path, path.len() - 1);
}

proof fn lemma_path_met(
    root: Seq<char>,
    edges: spec_fn(Seq<char>) -> Seq<Seq<char>>,
    n: nat,
    path: Seq<Seq<char>>,
    k: int,
)
    requires
        walked(root, edges, n).stack.len() == 0,
        is_path(root, edges, path),
        0 <= k < path.len(),
    ensures
        walked(root, edges, n).order.contains(path[k]),
    decreases k,
{
    lemma_accounted(root, edges, n);
    let order = walked(root, edges, n).order;
    if k > 0 {
        lemma_path_met(root, edges, n, path, k - 1);
        assert(leads_on(edges, path, k - 1));
        let i = choose|i: int| 0 <= i < order.len() && order[i] == path[k - 1];
        let targets = edges(path[k - 1]);
        let m = choose|m: int| 0 <= m < targets.len() && targets[m] == path[k];
        assert(order.contains(edges(order[i])[m]));
    }
}

/// How many of `files` a walk has not met.
pub open spec fn unmet(files: Set<Seq<char>>, order: Seq<Seq<char>>) -> nat {
    files.difference(order.to_set()).len()
}

/// Each file that a walk is given to look at leaves it one file fewer to meet.
pub proof fn law_each_step_leaves_one_file_fewer(
    files: Set<Seq<char>>,
    order: Seq<Seq<char>>,
    stack: Seq<Seq<char>>,
)
    requires
        files.finite(),
        forall|k: int| 0 <= k < stack.len() ==> files.contains(#[trigger] stack[k]),
    ensures
        next_new(order, stack) matches Some((file, _)) ==> unmet(files, order.push(file)) + 1
            == unmet(files, order),
{
    lemma_next_new(order, stack);
    match next_new(order, stack) {
        Some((file, _)) => {
            let longer = order.push(file);
            assert forall|x: Seq<char>| longer.contains(x) implies order.contains(x) || x
                == file by {
                let i = choose|i: int| 0 <= i < longer.len() && longer[i] == x;
                if i < order.len() {
                    assert(order[i] == x);
                }
            }
            assert forall|x: Seq<char>| order.contains(x) || x == file implies longer.contains(
                x,
            ) by {
                if x == file {
                    assert(longer[order.len() as int] == x);
                } else {
                    let i = choose|i: int| 0 <= i < order.len() && order[i] == x;
                    assert(longer[i] == x);
                }
            }
            let left = files.difference(order.to_set());
            assert(files.difference(longer.to_set()) =~= left.remove(file));
            assert(left.contains(file));
        },
        None => {},
    }
}

/// A walk stays among files that include nothing but each other, and looks at a new one with every
/// step until there is none.
proof fn lemma_walk_stays(
    root: Seq<char>,
    edges: spec_fn(Seq<char>) -> Seq<Seq<char>>,
    files: Set<Seq<char>>,
    n: nat,
)
    requires
        files.finite(),
        files.contains(root),
        forall|file: Seq<char>, k: int|
            files.contains(file) && 0 <= k < edges(file).len() ==> files.contains(
                #[trigger] edges(file)[k],
            ),
    ensures
        forall|k: int|
            0 <= k < walked(root, edges, n).stack.len() ==> files.contains(
                #[trigger] walked(root, edges, n).stack[k],
            ),
        next_new(walked(root, edges, n).order, walked(root, edges, n).stack) is Some ==> unmet(
            files,
            walked(root, edges, n).order,
        ) + n == files.len(),
    decreases n,
{
    if n == 0 {
        assert(files.difference(Seq::<Seq<char>>::empty().to_set()) =~= files);
    } else {
        let m = (n - 1) as nat;
        lemma_walk_stays(root, edges, files, m);
        let before = walked(root, edges, m);
        let after = walked(root, edges, n);
        lemma_next_new(before.order, before.stack);
        law_each_step_leaves_one_file_fewer(files, before.order, before.stack);
        match next_new(before.order, before.stack) {
            Some((file, rest)) => {
                assert forall|k: int| 0 <= k < after.stack.len() implies files.contains(
                    #[trigger] after.stack[k],
                ) by {
                    if k < rest.len() {
                        assert(after.stack[k] == rest[k]);
                        assert(before.stack.contains(rest[k]));
                    } else {
                        assert(after.stack[k] == edges(file)[k - rest.len()]);
                    }
                }
            },
            None => {},
        }
    }
}

/// A walk over finitely many files ends: after as many steps as there are files, none is left to
/// look at.
pub proof fn law_a_walk_over_finitely_many_files_ends(
    root: Seq<char>,
    edges: spec_fn(Seq<char>) -> Seq<Seq<char>>,
    files: Set<Seq<char>>,
    n: nat,
)
    requires
        files.finite(),
        files.contains(root),
        forall|file: Seq<char>, k: int|
            files.contains(file) && 0 <= k < edges(file).len() ==> files.contains(
                #[trigger] edges(file)[k],
            ),
        n >= files.len(),
    ensures
        next_new(walked(root, edges, n).order, walked(root, edges, n).stack) is None,
        walked(root, edges, n + 1).stack.len() == 0,
{
    lemma_walk_stays(root, edges, files, n);
    law_each_step_leaves_one_file_fewer(
        files,
        walked(root, edges, n).order,
        walked(root, edges, n).stack,
    );
}

} // verus!
