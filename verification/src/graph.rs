//! The commit graph: a snapshot of the object store as plain data, the
//! redirection (replacement-reference) resolver, the children index built by
//! a reverse walk from the terminal commit, and tag-directed branching.
//! Commit identities are dense indices into the snapshot.

use vstd::prelude::*;
use crate::errors::Error;

verus! {

/// One commit: its parents (by identity) and its instruction text.
pub struct Commit {
    pub parents: Vec<usize>,
    pub message: String,
}

/// A read-only snapshot of the repository: commits addressed by index,
/// replacement references, and tags.
pub struct Repo {
    pub commits: Vec<Commit>,
    pub replaces: Vec<(usize, usize)>,
    pub tags: Vec<(String, usize)>,
}

/// The first association for `k`, if any.
pub open spec fn assoc_first(s: Seq<(usize, usize)>, k: usize) -> Option<usize>
    decreases s.len(),
{
    if s.len() == 0 {
        None
    } else if s[0].0 == k {
        Some(s[0].1)
    } else {
        assoc_first(s.skip(1), k)
    }
}

/// The first tag with this name, if any.
pub open spec fn tag_first(s: Seq<(String, usize)>, name: Seq<char>) -> Option<usize>
    decreases s.len(),
{
    if s.len() == 0 {
        None
    } else if s[0].0@ == name {
        Some(s[0].1)
    } else {
        tag_first(s.skip(1), name)
    }
}

impl Repo {
    pub open spec fn n(self) -> int {
        self.commits@.len() as int
    }

    /// Every identity mentioned anywhere is in range.
    pub open spec fn wf(self) -> bool {
        &&& forall|i: int, j: int|
            0 <= i < self.commits@.len() && 0 <= j < self.commits@[i].parents@.len() ==> (
            #[trigger] self.commits@[i].parents@[j]) < self.commits@.len()
        &&& forall|i: int|
            0 <= i < self.replaces@.len() ==> (#[trigger] self.replaces@[i]).0
                < self.commits@.len() && self.replaces@[i].1 < self.commits@.len()
        &&& forall|i: int|
            0 <= i < self.tags@.len() ==> (#[trigger] self.tags@[i]).1 < self.commits@.len()
    }

    pub open spec fn replace_of(self, id: usize) -> Option<usize> {
        assoc_first(self.replaces@, id)
    }

    pub open spec fn tag_of(self, name: Seq<char>) -> Option<usize> {
        tag_first(self.tags@, name)
    }

    /// Looks up a replacement reference.
    pub fn find_replace(&self, id: usize) -> (r: Option<usize>)
        ensures
            r == self.replace_of(id),
            self.wf() ==> (match r {
                Some(t) => t < self.n(),
                None => true,
            }),
    {
        let n = self.replaces.len();
        let mut i: usize = 0;
        proof {
            assert(self.replaces@.skip(0) =~= self.replaces@);
        }
        while i < n
            invariant
                i <= n,
                n == self.replaces@.len(),
                assoc_first(self.replaces@, id) == assoc_first(
                    self.replaces@.skip(i as int),
                    id,
                ),
            decreases n - i,
        {
            assert(self.replaces@.skip(i as int)[0] == self.replaces@[i as int]);
            if self.replaces[i].0 == id {
                return Some(self.replaces[i].1);
            }
            proof {
                assert(self.replaces@.skip(i as int).skip(1) =~= self.replaces@.skip(i as int + 1));
            }
            i = i + 1;
        }
        proof {
            assert(self.replaces@.skip(n as int) =~= Seq::<(usize, usize)>::empty());
        }
        None
    }

    /// Resolves a tag name to a commit.
    pub fn resolve_tag(&self, name: &str) -> (r: Option<usize>)
        ensures
            r == self.tag_of(name@),
            self.wf() ==> (match r {
                Some(t) => t < self.n(),
                None => true,
            }),
    {
        let n = self.tags.len();
        let mut i: usize = 0;
        proof {
            assert(self.tags@.skip(0) =~= self.tags@);
        }
        while i < n
            invariant
                i <= n,
                n == self.tags@.len(),
                tag_first(self.tags@, name@) == tag_first(self.tags@.skip(i as int), name@),
            decreases n - i,
        {
            assert(self.tags@.skip(i as int)[0] == self.tags@[i as int]);
            if crate::graph::str_eq_g(self.tags[i].0.as_str(), name) {
                return Some(self.tags[i].1);
            }
            proof {
                assert(self.tags@.skip(i as int).skip(1) =~= self.tags@.skip(i as int + 1));
            }
            i = i + 1;
        }
        proof {
            assert(self.tags@.skip(n as int) =~= Seq::<(String, usize)>::empty());
        }
        None
    }
}

impl Repo {
    /// Checks `wf` at run time, so an unverified caller can test it before
    /// relying on anything that requires it.
    pub fn check_wf(&self) -> (r: bool)
        ensures
            r == self.wf(),
    {
        let n = self.commits.len();
        let mut i: usize = 0;
        while i < n
            invariant
                i <= n,
                n == self.commits@.len(),
                forall|a: int, b: int|
                    0 <= a < i && 0 <= b < self.commits@[a].parents@.len() ==> (
                    #[trigger] self.commits@[a].parents@[b]) < n,
            decreases n - i,
        {
            let np = self.commits[i].parents.len();
            let mut j: usize = 0;
            while j < np
                invariant
                    i < n,
                    j <= np,
                    n == self.commits@.len(),
                    np == self.commits@[i as int].parents@.len(),
                    forall|b: int|
                        0 <= b < j ==> (#[trigger] self.commits@[i as int].parents@[b]) < n,
                decreases np - j,
            {
                if self.commits[i].parents[j] >= n {
                    return false;
                }
                j = j + 1;
            }
            i = i + 1;
        }
        let nr = self.replaces.len();
        let mut k: usize = 0;
        while k < nr
            invariant
                k <= nr,
                n == self.commits@.len(),
                nr == self.replaces@.len(),
                forall|a: int|
                    0 <= a < k ==> (#[trigger] self.replaces@[a]).0 < n && self.replaces@[a].1
                        < n,
            decreases nr - k,
        {
            if self.replaces[k].0 >= n || self.replaces[k].1 >= n {
                return false;
            }
            k = k + 1;
        }
        let nt = self.tags.len();
        let mut q: usize = 0;
        while q < nt
            invariant
                q <= nt,
                n == self.commits@.len(),
                nt == self.tags@.len(),
                forall|a: int| 0 <= a < q ==> (#[trigger] self.tags@[a]).1 < n,
            decreases nt - q,
        {
            if self.tags[q].1 >= n {
                return false;
            }
            q = q + 1;
        }
        true
    }
}

/// Relies on `str`'s `PartialEq`: character-for-character equality.
#[verifier::external_body]
pub fn str_eq_g(a: &str, b: &str) -> (r: bool)
    ensures
        r == (a@ == b@),
{
    a == b
}

/// Following replacement references from `id` for at most `fuel` steps:
/// `Some` is the fixed point, `None` means the chain did not settle.
pub open spec fn canon_from(r: Repo, id: usize, fuel: nat) -> Option<usize>
    decreases fuel,
{
    match r.replace_of(id) {
        None => Some(id),
        Some(nxt) => if fuel == 0 {
            None
        } else {
            canon_from(r, nxt, (fuel - 1) as nat)
        },
    }
}

/// The canonical identity of `id`: the end of its replacement chain. A chain
/// that does not settle within as many steps as there are replacement
/// references must revisit one, so it never settles.
pub open spec fn canon(r: Repo, id: usize) -> Option<usize> {
    canon_from(r, id, r.replaces@.len())
}

pub open spec fn is_canon(r: Repo, id: usize) -> bool {
    canon(r, id) == Some(id)
}

/// The end of a settled chain has no replacement of its own.
proof fn lemma_canon_terminal(r: Repo, id: usize, fuel: nat)
    requires
        canon_from(r, id, fuel) is Some,
    ensures
        r.replace_of(canon_from(r, id, fuel)->Some_0) is None,
    decreases fuel,
{
    match r.replace_of(id) {
        None => {},
        Some(nxt) => {
            lemma_canon_terminal(r, nxt, (fuel - 1) as nat);
        },
    }
}

/// Redirection is idempotent: resolving a commit twice yields the same
/// canonical identity.
pub proof fn lemma_canon_idempotent(r: Repo, id: usize, c: usize)
    requires
        canon(r, id) == Some(c),
    ensures
        canon(r, c) == Some(c),
        is_canon(r, c),
{
    lemma_canon_terminal(r, id, r.replaces@.len());
}

/// A settled chain stays within the commit range.
proof fn lemma_canon_bound(r: Repo, id: usize, fuel: nat)
    requires
        r.wf(),
        id < r.n(),
        canon_from(r, id, fuel) is Some,
    ensures
        canon_from(r, id, fuel)->Some_0 < r.n(),
    decreases fuel,
{
    match r.replace_of(id) {
        None => {},
        Some(nxt) => {
            lemma_assoc_bound(r, id);
            lemma_canon_bound(r, nxt, (fuel - 1) as nat);
        },
    }
}

proof fn lemma_assoc_bound(r: Repo, id: usize)
    requires
        r.wf(),
        r.replace_of(id) is Some,
    ensures
        r.replace_of(id)->Some_0 < r.n(),
{
    lemma_assoc_bound_rec(r, r.replaces@, id);
}

proof fn lemma_assoc_bound_rec(r: Repo, s: Seq<(usize, usize)>, id: usize)
    requires
        r.wf(),
        forall|i: int| 0 <= i < s.len() ==> exists|j: int|
            0 <= j < r.replaces@.len() && (#[trigger] s[i]) == r.replaces@[j],
        assoc_first(s, id) is Some,
    ensures
        assoc_first(s, id)->Some_0 < r.n(),
    decreases s.len(),
{
    if s.len() > 0 {
        if s[0].0 == id {
            let j = choose|j: int| 0 <= j < r.replaces@.len() && s[0] == r.replaces@[j];
            assert(r.replaces@[j].1 < r.n());
        } else {
            assert(forall|i: int|
                0 <= i < s.skip(1).len() ==> (#[trigger] s.skip(1)[i]) == s[i + 1]);
            lemma_assoc_bound_rec(r, s.skip(1), id);
        }
    }
}

/// Resolves redirection: follows replacement references to their fixed
/// point, as `canon` describes. The returned option carries the original
/// identity when any step occurred.
pub fn replace(repo: &Repo, commit: &mut usize) -> (r: Result<Option<usize>, Error>)
    requires
        repo.wf(),
        *old(commit) < repo.n(),
    ensures
        match r {
            Ok(orig) => canon(*repo, *old(commit)) == Some(*final(commit)) && *final(commit)
                < repo.n() && orig == (if *final(commit) == *old(commit) {
                None::<usize>
            } else {
                Some(*old(commit))
            }),
            Err(e) => e is RedirectLoop && canon(*repo, *old(commit)) is None && *final(commit)
                == *old(commit),
        },
{
    let mut cur = *commit;
    let mut fuel = repo.replaces.len();
    loop
        invariant_except_break
            repo.wf(),
            cur < repo.n(),
            fuel <= repo.replaces@.len(),
            canon(*repo, *old(commit)) == canon_from(*repo, cur, fuel as nat),
        ensures
            canon(*repo, *old(commit)) == Some(cur) && cur < repo.n(),
        decreases fuel,
    {
        match repo.find_replace(cur) {
            None => {
                break;
            },
            Some(nxt) => {
                if fuel == 0 {
                    return Err(Error::RedirectLoop);
                }
                fuel = fuel - 1;
                cur = nxt;
            },
        }
    }
    let orig = *commit;
    *commit = cur;
    if cur == orig {
        Ok(None)
    } else {
        Ok(Some(orig))
    }
}

/// How many entries of a mark vector are set.
pub open spec fn num_marked(s: Seq<bool>) -> int
    decreases s.len(),
{
    if s.len() == 0 {
        0
    } else {
        num_marked(s.drop_last()) + (if s.last() {
            1int
        } else {
            0int
        })
    }
}

proof fn lemma_num_marked_le(s: Seq<bool>)
    ensures
        0 <= num_marked(s) <= s.len(),
    decreases s.len(),
{
    if s.len() > 0 {
        lemma_num_marked_le(s.drop_last());
    }
}

/// Setting a clear mark raises the count by one.
proof fn lemma_num_marked_set(s: Seq<bool>, i: int)
    requires
        0 <= i < s.len(),
        !s[i],
    ensures
        num_marked(s.update(i, true)) == num_marked(s) + 1,
    decreases s.len(),
{
    let t = s.update(i, true);
    if i == s.len() - 1 {
        assert(t.drop_last() =~= s.drop_last());
    } else {
        lemma_num_marked_set(s.drop_last(), i);
        assert(t.drop_last() =~= s.drop_last().update(i, true));
        assert(t.last() == s.last());
    }
}


/// The children index, keyed by canonical identity. The map itself is an
/// off-the-shelf hash map; Verus sees it only through `child_map` and the
/// few operations below.
#[verifier::external_body]
#[derive(Debug)]
pub struct ChildIndex {
    inner: hashbrown::HashMap<usize, Vec<usize>>,
}

/// What the index holds: each present key's list of children, in insertion
/// order.
pub uninterp spec fn child_map(m: ChildIndex) -> Map<usize, Seq<usize>>;

/// Relies on `hashbrown::HashMap::new`: a new map is empty.
#[verifier::external_body]
pub fn child_index_new() -> (r: ChildIndex)
    ensures
        forall|k: usize| !child_map(r).contains_key(k),
{
    ChildIndex { inner: hashbrown::HashMap::new() }
}

/// Relies on `hashbrown::HashMap::entry` and `Entry::or_default`: appends
/// `c` to the list at `k`, creating an empty list first when `k` is absent.
#[verifier::external_body]
pub fn child_index_push(m: &mut ChildIndex, k: usize, c: usize)
    ensures
        child_map(*final(m)) == child_map(*old(m)).insert(
            k,
            (if child_map(*old(m)).contains_key(k) {
                child_map(*old(m))[k]
            } else {
                Seq::<usize>::empty()
            }).push(c),
        ),
{
    m.inner.entry(k).or_default().push(c);
}

/// Relies on `hashbrown::HashMap::entry` and `Entry::or_default`: makes `k`
/// present, with an empty list when it was absent.
#[verifier::external_body]
pub fn child_index_touch(m: &mut ChildIndex, k: usize)
    ensures
        child_map(*final(m)) == child_map(*old(m)).insert(
            k,
            if child_map(*old(m)).contains_key(k) {
                child_map(*old(m))[k]
            } else {
                Seq::<usize>::empty()
            },
        ),
{
    m.inner.entry(k).or_default();
}

/// Relies on `hashbrown::HashMap::get`: the list at `k`, if present.
#[verifier::external_body]
pub fn child_index_get<'a>(m: &'a ChildIndex, k: usize) -> (r: Option<&'a Vec<usize>>)
    ensures
        match r {
            Some(v) => child_map(*m).contains_key(k) && v@ == child_map(*m)[k],
            None => !child_map(*m).contains_key(k),
        },
{
    m.inner.get(&k)
}

/// Whether a list of identities already holds `x`.
fn ids_contain(v: &Vec<usize>, x: usize) -> (r: bool)
    ensures
        r == v@.contains(x),
{
    let n = v.len();
    let mut i: usize = 0;
    while i < n
        invariant
            i <= n,
            n == v@.len(),
            forall|q: int| 0 <= q < i ==> v@[q] != x,
        decreases n - i,
    {
        if v[i] == x {
            return true;
        }
        i = i + 1;
    }
    proof {
        if v@.contains(x) {
            let q = choose|q: int| 0 <= q < v@.len() && v@[q] == x;
        }
    }
    false
}

/// `p` is the canonical identity of some parent of `c`.
pub open spec fn cedge(r: Repo, c: usize, p: usize) -> bool {
    exists|j: int|
        0 <= j < r.commits@[c as int].parents@.len() && (#[trigger] canon_parent(r, c, j))
            == Some(p)
}

/// A walked commit: all its parents' redirections settle, and each canonical
/// parent is marked and carries `x` in its child list.
pub open spec fn expanded(r: Repo, m: Map<usize, Seq<usize>>, vis: Seq<bool>, x: usize) -> bool {
    forall|j: int|
        0 <= j < r.commits@[x as int].parents@.len() ==> {
            &&& (#[trigger] canon_parent(r, x, j)) is Some
            &&& canon_parent(r, x, j)->Some_0 < vis.len()
            &&& vis[canon_parent(r, x, j)->Some_0 as int]
            &&& m.contains_key(canon_parent(r, x, j)->Some_0)
            &&& m[canon_parent(r, x, j)->Some_0].contains(x)
        }
}

/// In a mark vector closed under expansion, everything reachable from a
/// marked root is marked.
proof fn lemma_walk_complete(
    r: Repo,
    m: Map<usize, Seq<usize>>,
    vis: Seq<bool>,
    root: usize,
    x: usize,
    k: nat,
)
    requires
        vis.len() == r.n(),
        root < r.n(),
        vis[root as int],
        forall|y: usize| y < vis.len() && vis[y as int] ==> expanded(r, m, vis, y),
        reach_in(r, root, x, k),
    ensures
        x < r.n() && vis[x as int],
    decreases k,
{
    if k > 0 {
        let j = choose|j: int|
            0 <= j < r.commits@[root as int].parents@.len() && (#[trigger] canon_parent(
                r,
                root,
                j,
            )) is Some && reach_in(r, canon_parent(r, root, j)->Some_0, x, (k - 1) as nat);
        let q = canon_parent(r, root, j)->Some_0;
        assert(expanded(r, m, vis, root));
        lemma_walk_complete(r, m, vis, q, x, (k - 1) as nat);
    }
}

/// The finished children index, exactly: the keys are the canonical
/// identities reachable from `endc` (the terminal commit itself included,
/// with an empty list when it is nobody's parent), and an entry `p -> c`
/// stands iff `c` is reachable and `p` is the canonical identity of one of
/// `c`'s parents.
pub open spec fn children_exact(r: Repo, endc: usize, m: Map<usize, Seq<usize>>) -> bool {
    &&& children_ok(r, m)
    &&& forall|p: usize| #[trigger] m.contains_key(p) <==> (p < r.n() && reaches(r, endc, p))
    &&& forall|p: usize, c: usize|
        m.contains_key(p) && #[trigger] m[p].contains(c) ==> p < r.n() && c < r.n() && reaches(
            r,
            endc,
            c,
        ) && cedge(r, c, p)
    &&& forall|p: usize, c: usize|
        c < r.n() && reaches(r, endc, c) && #[trigger] cedge(r, c, p) ==> m.contains_key(p)
            && m[p].contains(c)
}

/// The shape the finished children index always has: every key's list holds
/// only canonical, in-range identities, without duplicates.
pub open spec fn children_ok(r: Repo, m: Map<usize, Seq<usize>>) -> bool {
    forall|k: usize| #[trigger]
        m.contains_key(k) ==> m[k].no_duplicates() && forall|i: int|
            0 <= i < m[k].len() ==> is_canon(r, #[trigger] m[k][i]) && m[k][i] < r.n()
}

/// When building the index fails: the terminal commit's own redirection
/// does not settle, or some commit reachable from its canonical identity
/// has a parent whose redirection does not settle.
pub open spec fn bad_redirect(r: Repo, end: usize) -> bool {
    match canon(r, end) {
        None => true,
        Some(endc) => exists|y: usize, jj: int|
            y < r.n() && reaches(r, endc, y) && 0 <= jj < r.commits@[y as int].parents@.len()
                && canon(r, r.commits@[y as int].parents@[jj]) is None,
    }
}

/// Builds the children index by a reverse walk across parent edges from the
/// terminal commit, applying redirection to every identity before it is
/// recorded. The finished index holds an entry `p -> c` exactly when `c` is
/// reachable from the canonical terminal commit and `p` is the canonical
/// identity of one of `c`'s parents, so no aliased identity appears in any
/// key or value.
pub fn collect_children(repo: &Repo, end: usize) -> (r: Result<ChildIndex, Error>)
    requires
        repo.wf(),
        end < repo.n(),
    ensures
        match r {
            Ok(idx) => canon(*repo, end) matches Some(endc) && children_exact(
                *repo,
                endc,
                child_map(idx),
            ),
            Err(e) => e is RedirectLoop && bad_redirect(*repo, end),
        },
{
    let ncommits = repo.commits.len();
    let mut endc = end;
    match replace(repo, &mut endc) {
        Ok(_) => {},
        Err(e) => {
            return Err(e);
        },
    }
    proof {
        lemma_canon_idempotent(*repo, end, endc);
    }
    let mut idx = child_index_new();
    child_index_touch(&mut idx, endc);
    let mut visited: Vec<bool> = Vec::new();
    let mut vi: usize = 0;
    while vi < ncommits
        invariant
            vi <= ncommits,
            visited@.len() == vi,
            forall|q: int| 0 <= q < vi ==> !visited@[q],
        decreases ncommits - vi,
    {
        visited.push(false);
        vi = vi + 1;
    }
    proof {
        lemma_num_marked_all_false(visited@);
    }
    let mut stack: Vec<usize> = Vec::new();
    stack.push(endc);
    visited.set(endc, true);
    proof {
        lemma_num_marked_set(Seq::new(ncommits as nat, |q: int| false), endc as int);
        assert(reach_in(*repo, endc, endc, 0));
        assert(stack@.contains(endc)) by {
            assert(stack@[0] == endc);
        }
        assert forall|x: usize|
            x < ncommits && visited@[x as int] && !stack@.contains(x) implies #[trigger] expanded(
            *repo,
            child_map(idx),
            visited@,
            x,
        ) by {
            assert(x == endc);
        }
    }
    while stack.len() > 0
        invariant
            repo.wf(),
            ncommits == repo.n(),
            canon(*repo, end) == Some(endc),
            endc < ncommits,
            visited@.len() == ncommits,
            visited@[endc as int],
            stack@.no_duplicates(),
            forall|q: int|
                0 <= q < stack@.len() ==> (#[trigger] stack@[q]) < ncommits
                    && visited@[stack@[q] as int],
            forall|x: usize|
                x < ncommits && #[trigger] visited@[x as int] ==> reaches(*repo, endc, x)
                    && is_canon(*repo, x),
            forall|x: usize|
                x < ncommits && visited@[x as int] && !stack@.contains(x) ==> #[trigger] expanded(
                    *repo,
                    child_map(idx),
                    visited@,
                    x,
                ),
            children_ok(*repo, child_map(idx)),
            forall|p: usize, c: usize|
                child_map(idx).contains_key(p) && #[trigger] child_map(idx)[p].contains(c) ==> p
                    < ncommits && c < ncommits && visited@[c as int] && cedge(*repo, c, p),
            child_map(idx).contains_key(endc),
            forall|p: usize| #[trigger]
                child_map(idx).contains_key(p) ==> p < ncommits && reaches(*repo, endc, p),
        decreases ncommits - num_marked(visited@), stack@.len(),
    {
        proof {
            lemma_num_marked_le(visited@);
        }
        let ghost marked0 = num_marked(visited@);
        let ghost stacklen0 = stack@.len();
        let ghost stack0 = stack@;
        let c = match stack.pop() {
            Some(x) => x,
            None => {
                proof {
                    assert(false);
                }
                0
            },
        };
        proof {
            assert(stack0.drop_last() =~= stack@);
            assert(forall|q: int| 0 <= q < stack@.len() ==> stack@[q] == stack0[q]);
        }
        let np = repo.commits[c].parents.len();
        let mut j: usize = 0;
        while j < np
            invariant
                repo.wf(),
                ncommits == repo.n(),
                canon(*repo, end) == Some(endc),
                endc < ncommits,
                c < ncommits,
                is_canon(*repo, c),
                reaches(*repo, endc, c),
                np == repo.commits@[c as int].parents@.len(),
                j <= np,
                visited@.len() == ncommits,
                visited@[endc as int],
                visited@[c as int],
                !stack@.contains(c),
                stack@.no_duplicates(),
                forall|q: int|
                    0 <= q < stack@.len() ==> (#[trigger] stack@[q]) < ncommits
                        && visited@[stack@[q] as int],
                forall|x: usize|
                    x < ncommits && #[trigger] visited@[x as int] ==> reaches(*repo, endc, x)
                        && is_canon(*repo, x),
                forall|x: usize|
                    x < ncommits && visited@[x as int] && !stack@.contains(x) && x != c
                        ==> #[trigger] expanded(*repo, child_map(idx), visited@, x),
                forall|jj: int|
                    0 <= jj < j ==> {
                        &&& (#[trigger] canon_parent(*repo, c, jj)) is Some
                        &&& canon_parent(*repo, c, jj)->Some_0 < ncommits
                        &&& visited@[canon_parent(*repo, c, jj)->Some_0 as int]
                        &&& child_map(idx).contains_key(canon_parent(*repo, c, jj)->Some_0)
                        &&& child_map(idx)[canon_parent(*repo, c, jj)->Some_0].contains(c)
                    },
                children_ok(*repo, child_map(idx)),
                forall|p: usize, cc: usize|
                    child_map(idx).contains_key(p) && #[trigger] child_map(idx)[p].contains(cc)
                        ==> p < ncommits && cc < ncommits && visited@[cc as int] && cedge(
                        *repo,
                        cc,
                        p,
                    ),
                child_map(idx).contains_key(endc),
                forall|p: usize| #[trigger]
                    child_map(idx).contains_key(p) ==> p < ncommits && reaches(*repo, endc, p),
                num_marked(visited@) >= marked0,
                num_marked(visited@) > marked0 || stack@.len() == stacklen0 - 1,
            decreases np - j,
        {
            let p0 = repo.commits[c].parents[j];
            let mut p = p0;
            match replace(repo, &mut p) {
                Ok(_) => {},
                Err(e) => {
                    proof {
                        assert(canon(*repo, p0) is None);
                        assert(bad_redirect(*repo, end)) by {
                            assert(canon(*repo, end) == Some(endc));
                            assert(reaches(*repo, endc, c));
                        }
                    }
                    return Err(e);
                },
            }
            proof {
                lemma_canon_idempotent(*repo, p0, p);
                assert(canon_parent(*repo, c, j as int) == Some(p));
                let ghost kc = choose|k: nat| reach_in(*repo, endc, c, k);
                lemma_reach_step(*repo, endc, c, kc, j as int, p);
            }
            let present = match child_index_get(&idx, p) {
                Some(v) => ids_contain(v, c),
                None => false,
            };
            if !present {
                let ghost m0 = child_map(idx);
                child_index_push(&mut idx, p, c);
                proof {
                    let newseq = (if m0.contains_key(p) {
                        m0[p]
                    } else {
                        Seq::<usize>::empty()
                    }).push(c);
                    assert(newseq.drop_last() =~= (if m0.contains_key(p) {
                        m0[p]
                    } else {
                        Seq::<usize>::empty()
                    }));
                    assert(newseq.contains(c)) by {
                        assert(newseq.last() == c);
                    }
                    assert forall|pp: usize, cc: usize|
                        child_map(idx).contains_key(pp) && #[trigger] child_map(
                            idx,
                        )[pp].contains(cc) implies pp < ncommits && cc < ncommits
                        && visited@[cc as int] && cedge(*repo, cc, pp) by {
                        if pp == p {
                            if cc != c {
                                assert(m0.contains_key(p) && m0[p].contains(cc));
                            }
                        } else {
                            assert(m0.contains_key(pp) && m0[pp].contains(cc));
                        }
                    }
                    assert forall|k: usize| #[trigger]
                        child_map(idx).contains_key(k) implies child_map(
                        idx,
                    )[k].no_duplicates() && forall|i: int|
                        0 <= i < child_map(idx)[k].len() ==> is_canon(
                            *repo,
                            #[trigger] child_map(idx)[k][i],
                        ) && child_map(idx)[k][i] < repo.n() by {
                        if k == p {
                            assert(child_map(idx)[k] == newseq);
                            assert(newseq.no_duplicates());
                        } else {
                            assert(child_map(idx)[k] == m0[k]);
                        }
                    }
                    assert forall|x: usize|
                        x < ncommits && visited@[x as int] && !stack@.contains(x) && x != c
                            implies #[trigger] expanded(*repo, child_map(idx), visited@, x) by {
                        assert(expanded(*repo, m0, visited@, x));
                        assert forall|jj: int|
                            0 <= jj < repo.commits@[x as int].parents@.len() implies {
                            &&& (#[trigger] canon_parent(*repo, x, jj)) is Some
                            &&& canon_parent(*repo, x, jj)->Some_0 < visited@.len()
                            &&& visited@[canon_parent(*repo, x, jj)->Some_0 as int]
                            &&& child_map(idx).contains_key(canon_parent(*repo, x, jj)->Some_0)
                            &&& child_map(idx)[canon_parent(*repo, x, jj)->Some_0].contains(x)
                        } by {
                            let q = canon_parent(*repo, x, jj)->Some_0;
                            assert(m0.contains_key(q) && m0[q].contains(x));
                            if q == p {
                                let i = choose|i: int| 0 <= i < m0[q].len() && m0[q][i] == x;
                                assert(newseq[i] == x);
                            }
                        }
                    }
                }
            } else {
                proof {
                    assert(child_map(idx)[p].contains(c));
                }
            }
            if !visited[p] {
                let ghost vis0 = visited@;
                let ghost stk0 = stack@;
                proof {
                    lemma_num_marked_set(visited@, p as int);
                    assert(!stk0.contains(p)) by {
                        if stk0.contains(p) {
                            let q = choose|q: int| 0 <= q < stk0.len() && stk0[q] == p;
                        }
                    }
                }
                visited.set(p, true);
                stack.push(p);
                proof {
                    assert(visited@ == vis0.update(p as int, true));
                    assert(stack@ == stk0.push(p));
                    assert(stack@.drop_last() =~= stk0);
                    assert forall|x: usize|
                        x < ncommits && visited@[x as int] && !stack@.contains(x) && x != c
                            implies #[trigger] expanded(*repo, child_map(idx), visited@, x) by {
                        assert(stack@.contains(p)) by {
                            assert(stack@.last() == p);
                        }
                        assert(x != p);
                        assert(vis0[x as int]);
                        assert(!stk0.contains(x)) by {
                            if stk0.contains(x) {
                                let q = choose|q: int| 0 <= q < stk0.len() && stk0[q] == x;
                                assert(stack@[q] == x);
                            }
                        }
                        assert(expanded(*repo, child_map(idx), vis0, x));
                        assert forall|jj: int|
                            0 <= jj < repo.commits@[x as int].parents@.len() implies {
                            &&& (#[trigger] canon_parent(*repo, x, jj)) is Some
                            &&& canon_parent(*repo, x, jj)->Some_0 < visited@.len()
                            &&& visited@[canon_parent(*repo, x, jj)->Some_0 as int]
                            &&& child_map(idx).contains_key(canon_parent(*repo, x, jj)->Some_0)
                            &&& child_map(idx)[canon_parent(*repo, x, jj)->Some_0].contains(x)
                        } by {
                            let q = canon_parent(*repo, x, jj)->Some_0;
                            assert(vis0[q as int]);
                        }
                    }
                }
            }
            j = j + 1;
        }
        proof {
            lemma_num_marked_le(visited@);
            assert(expanded(*repo, child_map(idx), visited@, c));
        }
    }
    proof {
        assert forall|p: usize, c: usize|
            c < repo.n() && reaches(*repo, endc, c) && #[trigger] cedge(*repo, c, p) implies
            child_map(idx).contains_key(p) && child_map(idx)[p].contains(c) by {
            assert forall|y: usize| y < visited@.len() && visited@[y as int] implies expanded(
                *repo,
                child_map(idx),
                visited@,
                y,
            ) by {
                assert(!stack@.contains(y));
            }
            let ghost k = choose|k: nat| reach_in(*repo, endc, c, k);
            lemma_walk_complete(*repo, child_map(idx), visited@, endc, c, k);
            assert(expanded(*repo, child_map(idx), visited@, c));
            let j = choose|j: int|
                0 <= j < repo.commits@[c as int].parents@.len() && (#[trigger] canon_parent(
                    *repo,
                    c,
                    j,
                )) == Some(p);
        }
        assert forall|p: usize, c: usize|
            child_map(idx).contains_key(p) && #[trigger] child_map(idx)[p].contains(c) implies p
            < repo.n() && c < repo.n() && reaches(*repo, endc, c) && cedge(*repo, c, p) by {
        }
        assert forall|p: usize| (p < repo.n() && reaches(*repo, endc, p)) implies #[trigger]
            child_map(idx).contains_key(p) by {
            let k = choose|k: nat| reach_in(*repo, endc, p, k);
            if k == 0 {
                assert(p == endc);
            } else {
                lemma_reach_tail(*repo, endc, p, k);
                let (y, jy) = choose|y: usize, jy: int|
                    reach_in(*repo, endc, y, (k - 1) as nat) && 0 <= jy
                        < repo.commits@[y as int].parents@.len() && #[trigger] canon_parent(
                        *repo,
                        y,
                        jy,
                    ) == Some(p);
                let ghost kk = (k - 1) as nat;
                lemma_walk_complete(*repo, child_map(idx), visited@, endc, y, kk);
                assert(reaches(*repo, endc, y)) by {
                    assert(reach_in(*repo, endc, y, kk));
                }
                assert(cedge(*repo, y, p));
            }
        }
    }
    Ok(idx)
}

proof fn lemma_num_marked_all_false(s: Seq<bool>)
    requires
        forall|q: int| 0 <= q < s.len() ==> !s[q],
    ensures
        num_marked(s) == 0,
    decreases s.len(),
{
    if s.len() > 0 {
        lemma_num_marked_all_false(s.drop_last());
    }
}

/// The canonical `j`-th parent of `t`, if redirection settles.
pub open spec fn canon_parent(r: Repo, t: usize, j: int) -> Option<usize> {
    if 0 <= j < r.commits@[t as int].parents@.len() {
        canon(r, r.commits@[t as int].parents@[j])
    } else {
        None
    }
}

/// `x` lies `k` canonical-parent steps above `t`.
pub open spec fn reach_in(r: Repo, t: usize, x: usize, k: nat) -> bool
    decreases k,
{
    if k == 0 {
        t == x
    } else {
        exists|j: int|
            0 <= j < r.commits@[t as int].parents@.len() && (#[trigger] canon_parent(r, t, j))
                is Some && reach_in(r, canon_parent(r, t, j)->Some_0, x, (k - 1) as nat)
    }
}

/// `x` is an ancestor of `t` through canonical parent edges (or `t` itself).
pub open spec fn reaches(r: Repo, t: usize, x: usize) -> bool {
    exists|k: nat| reach_in(r, t, x, k)
}

/// A reachable node's canonical parent is reachable.
proof fn lemma_reach_step(r: Repo, t: usize, y: usize, k: nat, j: int, p: usize)
    requires
        reach_in(r, t, y, k),
        0 <= j < r.commits@[y as int].parents@.len(),
        canon_parent(r, y, j) == Some(p),
    ensures
        reach_in(r, t, p, (k + 1) as nat),
    decreases k,
{
    if k == 0 {
        assert(canon_parent(r, t, j) is Some && reach_in(r, canon_parent(r, t, j)->Some_0, p, 0));
    } else {
        let j0 = choose|j0: int|
            0 <= j0 < r.commits@[t as int].parents@.len() && (#[trigger] canon_parent(r, t, j0))
                is Some && reach_in(r, canon_parent(r, t, j0)->Some_0, y, (k - 1) as nat);
        let q = canon_parent(r, t, j0)->Some_0;
        lemma_reach_step(r, q, y, (k - 1) as nat, j, p);
        assert(canon_parent(r, t, j0) is Some && reach_in(r, canon_parent(r, t, j0)->Some_0, p, k));
    }
}

/// A visited commit whose parents have all been taken: each redirection
/// settles and each canonical parent is marked.
pub open spec fn walked(r: Repo, vis: Seq<bool>, y: usize) -> bool {
    forall|j: int|
        0 <= j < r.commits@[y as int].parents@.len() ==> {
            &&& (#[trigger] canon_parent(r, y, j)) is Some
            &&& canon_parent(r, y, j)->Some_0 < vis.len()
            &&& vis[canon_parent(r, y, j)->Some_0 as int]
        }
}

/// In a mark vector closed under taking canonical parents, everything
/// reachable from a marked root is marked.
proof fn lemma_visit_complete(r: Repo, vis: Seq<bool>, root: usize, x: usize, k: nat)
    requires
        vis.len() == r.n(),
        root < r.n(),
        vis[root as int],
        forall|y: usize| y < vis.len() && vis[y as int] ==> walked(r, vis, y),
        reach_in(r, root, x, k),
    ensures
        x < r.n() && vis[x as int],
    decreases k,
{
    if k > 0 {
        let j = choose|j: int|
            0 <= j < r.commits@[root as int].parents@.len() && (#[trigger] canon_parent(
                r,
                root,
                j,
            )) is Some && reach_in(r, canon_parent(r, root, j)->Some_0, x, (k - 1) as nat);
        let q = canon_parent(r, root, j)->Some_0;
        assert(walked(r, vis, root));
        lemma_visit_complete(r, vis, q, x, (k - 1) as nat);
    }
}

/// A path of positive length ends with one canonical-parent step.
proof fn lemma_reach_tail(r: Repo, t: usize, x: usize, k: nat)
    requires
        reach_in(r, t, x, k),
        k > 0,
    ensures
        exists|y: usize, j: int|
            reach_in(r, t, y, (k - 1) as nat) && 0 <= j < r.commits@[y as int].parents@.len()
                && #[trigger] canon_parent(r, y, j) == Some(x),
    decreases k,
{
    let j0 = choose|j0: int|
        0 <= j0 < r.commits@[t as int].parents@.len() && (#[trigger] canon_parent(r, t, j0))
            is Some && reach_in(r, canon_parent(r, t, j0)->Some_0, x, (k - 1) as nat);
    let q = canon_parent(r, t, j0)->Some_0;
    if k == 1 {
        assert(reach_in(r, t, t, 0));
        assert(canon_parent(r, t, j0) == Some(x));
    } else {
        lemma_reach_tail(r, q, x, (k - 1) as nat);
        let (y, j) = choose|y: usize, j: int|
            reach_in(r, q, y, (k - 2) as nat) && 0 <= j < r.commits@[y as int].parents@.len()
                && #[trigger] canon_parent(r, y, j) == Some(x);
        assert(reach_in(r, t, y, (k - 1) as nat)) by {
            assert(canon_parent(r, t, j0) is Some && reach_in(
                r,
                canon_parent(r, t, j0)->Some_0,
                y,
                (k - 2) as nat,
            ));
        }
    }
}

/// Where a tag name leads: its commit, canonicalized.
pub open spec fn tag_target(r: Repo, name: Seq<char>) -> Option<usize> {
    match r.tag_of(name) {
        None => None,
        Some(t0) => canon(r, t0),
    }
}

/// `c` is a candidate at the least ancestor-distance from the tag's
/// canonical commit: reachable in some `k` steps such that no candidate is
/// reachable in fewer. Deliberately, nothing is said about ties: any
/// candidate at the minimal distance satisfies this. The breadth-first
/// search below returns the first one met in level order; the original's
/// tie order was an artifact of its depth-first walk, and pinning either
/// order down would promise more than the spec's "first recorded" (an
/// implementation-defined notion) asks for.
pub open spec fn best_candidate(r: Repo, tagname: Seq<char>, cands: Seq<usize>, c: usize) -> bool {
    cands.contains(c) && tag_target(r, tagname) is Some && (exists|k: nat|
        #[trigger] reach_in(r, tag_target(r, tagname)->Some_0, c, k) && (forall|
            c2: usize,
            k2: nat,
        |
            cands.contains(c2) && k2 < k ==> !(#[trigger] reach_in(
                r,
                tag_target(r, tagname)->Some_0,
                c2,
                k2,
            ))))
}

/// Why branching can fail once the tag itself resolves: either some
/// redirection on the ancestor walk does not settle, or no candidate is a
/// canonical ancestor-or-self of the tag commit.
pub open spec fn no_branch_target(r: Repo, tagname: Seq<char>, cands: Seq<usize>) -> bool {
    tag_target(r, tagname) matches Some(tc) ==> ((exists|y: usize, jj: int|
        y < r.n() && reaches(r, tc, y) && 0 <= jj < r.commits@[y as int].parents@.len() && canon(
            r,
            r.commits@[y as int].parents@[jj],
        ) is None) || (forall|c2: usize| cands.contains(c2) ==> !reaches(r, tc, c2)))
}

/// Tag-directed branching: breadth-first over the tag commit's canonical
/// ancestors, level by level, so the first candidate met lies at the least
/// ancestor-distance; that minimality is part of the contract. `None` comes
/// only when the tag does not resolve, some redirection on the ancestor walk
/// does not settle, or no candidate is a canonical ancestor-or-self of the
/// tag commit.
#[verifier::rlimit(100)]
#[verifier::spinoff_prover]
pub fn find_tag(repo: &Repo, tag: &str, cands: &Vec<usize>) -> (r: Option<usize>)
    requires
        repo.wf(),
    ensures
        r matches Some(c) ==> best_candidate(*repo, tag@, cands@, c),
        r is None ==> no_branch_target(*repo, tag@, cands@),
{
    let ncommits = repo.commits.len();
    let t0 = match repo.resolve_tag(tag) {
        Some(t) => t,
        None => {
            return None;
        },
    };
    let mut tc = t0;
    match replace(repo, &mut tc) {
        Ok(_) => {},
        Err(_) => {
            return None;
        },
    }
    let mut visited: Vec<bool> = Vec::new();
    let mut vi: usize = 0;
    while vi < ncommits
        invariant
            vi <= ncommits,
            visited@.len() == vi,
            forall|q: int| 0 <= q < vi ==> !visited@[q],
        decreases ncommits - vi,
    {
        visited.push(false);
        vi = vi + 1;
    }
    proof {
        lemma_num_marked_all_false(visited@);
        lemma_num_marked_set(Seq::new(ncommits as nat, |q: int| false), tc as int);
    }
    let mut frontier: Vec<usize> = Vec::new();
    frontier.push(tc);
    visited.set(tc, true);
    let ghost mut d: nat = 0;
    proof {
        assert(reach_in(*repo, tc, tc, 0));
        assert(frontier@.contains(tc)) by {
            assert(frontier@[0] == tc);
        }
        assert forall|x: usize| #[trigger] reach_in(*repo, tc, x, 0) implies x < ncommits
            && visited@[x as int] by {
            assert(x == tc);
        }
    }
    while frontier.len() > 0
        invariant
            repo.wf(),
            ncommits == repo.n(),
            repo.tag_of(tag@) == Some(t0),
            canon(*repo, t0) == Some(tc),
            tc < ncommits,
            visited@.len() == ncommits,
            visited@[tc as int],
            forall|q: int|
                0 <= q < frontier@.len() ==> (#[trigger] frontier@[q]) < ncommits
                    && visited@[frontier@[q] as int] && reach_in(*repo, tc, frontier@[q], d),
            forall|x: usize, k: nat|
                k < d && #[trigger] reach_in(*repo, tc, x, k) ==> x < ncommits
                    && visited@[x as int] && !frontier@.contains(x),
            forall|x: usize|
                #[trigger] reach_in(*repo, tc, x, d) ==> x < ncommits && visited@[x as int],
            forall|x: usize|
                x < ncommits && #[trigger] visited@[x as int] && !frontier@.contains(x)
                    ==> !cands@.contains(x),
            forall|x: usize|
                x < ncommits && #[trigger] visited@[x as int] && !frontier@.contains(x)
                    ==> walked(*repo, visited@, x),
        decreases ncommits - num_marked(visited@),
    {
        proof {
            lemma_num_marked_le(visited@);
        }
        let ghost marked0 = num_marked(visited@);
        let flen = frontier.len();
        let mut fi: usize = 0;
        #[verifier::loop_isolation(false)]
        while fi < flen
            invariant
                fi <= flen,
                forall|q: int| 0 <= q < fi ==> !cands@.contains(#[trigger] frontier@[q]),
            decreases flen - fi,
        {
            if ids_contain(cands, frontier[fi]) {
                let c = frontier[fi];
                proof {
                    let tcv = tag_target(*repo, tag@)->Some_0;
                    assert(tcv == tc);
                    assert(reach_in(*repo, tcv, c, d));
                    assert forall|c2: usize, k2: nat|
                        cands@.contains(c2) && k2 < d implies !(#[trigger] reach_in(
                        *repo,
                        tcv,
                        c2,
                        k2,
                    )) by {
                        if reach_in(*repo, tc, c2, k2) {
                            assert(c2 < ncommits && visited@[c2 as int]
                                && !frontier@.contains(c2));
                        }
                    }
                    assert(best_candidate(*repo, tag@, cands@, c)) by {
                        assert(exists|k: nat|
                            #[trigger] reach_in(*repo, tag_target(*repo, tag@)->Some_0, c, k)
                                && (forall|c2: usize, k2: nat|
                                cands@.contains(c2) && k2 < k ==> !(#[trigger] reach_in(
                                    *repo,
                                    tag_target(*repo, tag@)->Some_0,
                                    c2,
                                    k2,
                                ))));
                    }
                }
                return Some(c);
            }
            fi = fi + 1;
        }
        assert(forall|q: int| 0 <= q < frontier@.len() ==> !cands@.contains(
            #[trigger] frontier@[q],
        ));
        let ghost vis0 = visited@;
        let ghost fr0 = frontier@;
        proof {
            assert(forall|x: usize, k: nat|
                k < d && #[trigger] reach_in(*repo, tc, x, k) ==> x < ncommits && vis0[x as int]
                    && !fr0.contains(x));
            assert(forall|x: usize|
                #[trigger] reach_in(*repo, tc, x, d) ==> x < ncommits && vis0[x as int]);
            assert(forall|x: usize|
                x < ncommits && #[trigger] vis0[x as int] && !fr0.contains(x)
                    ==> !cands@.contains(x) && walked(*repo, vis0, x));
            assert(forall|q: int| 0 <= q < fr0.len() ==> !cands@.contains(#[trigger] fr0[q]));
            assert(forall|q: int|
                0 <= q < fr0.len() ==> (#[trigger] fr0[q]) < ncommits && vis0[fr0[q] as int]
                    && reach_in(*repo, tc, fr0[q], d));
        }
        let mut next: Vec<usize> = Vec::new();
        let mut gi: usize = 0;
        while gi < flen
            invariant
                repo.wf(),
                ncommits == repo.n(),
                repo.tag_of(tag@) == Some(t0),
                canon(*repo, t0) == Some(tc),
                tc < ncommits,
                gi <= flen,
                flen == frontier@.len(),
                visited@.len() == ncommits,
                vis0.len() == ncommits,
                forall|q: int| 0 <= q < ncommits ==> (vis0[q] ==> #[trigger] visited@[q]),
                forall|q: int|
                    0 <= q < frontier@.len() ==> (#[trigger] frontier@[q]) < ncommits
                        && reach_in(*repo, tc, frontier@[q], d),
                forall|q: int|
                    0 <= q < next@.len() ==> (#[trigger] next@[q]) < ncommits
                        && !vis0[next@[q] as int] && visited@[next@[q] as int] && reach_in(
                        *repo,
                        tc,
                        next@[q],
                        (d + 1) as nat,
                    ),
                forall|x: usize|
                    x < ncommits && #[trigger] visited@[x as int] ==> vis0[x as int]
                        || next@.contains(x),
                forall|g: int|
                    0 <= g < gi ==> walked(*repo, visited@, #[trigger] frontier@[g]),
                num_marked(visited@) >= marked0,
                next@.len() > 0 ==> num_marked(visited@) > marked0,
            decreases flen - gi,
        {
            let y = frontier[gi];
            let np = repo.commits[y].parents.len();
            let mut j: usize = 0;
            while j < np
                invariant
                    repo.wf(),
                    ncommits == repo.n(),
                    repo.tag_of(tag@) == Some(t0),
                    canon(*repo, t0) == Some(tc),
                    tc < ncommits,
                    gi < flen,
                    flen == frontier@.len(),
                    y == frontier@[gi as int],
                    y < ncommits,
                    reach_in(*repo, tc, y, d),
                    j <= np,
                    np == repo.commits@[y as int].parents@.len(),
                    visited@.len() == ncommits,
                    vis0.len() == ncommits,
                    forall|q: int| 0 <= q < ncommits ==> (vis0[q] ==> #[trigger] visited@[q]),
                    forall|q: int|
                        0 <= q < frontier@.len() ==> (#[trigger] frontier@[q]) < ncommits
                            && reach_in(*repo, tc, frontier@[q], d),
                    forall|q: int|
                        0 <= q < next@.len() ==> (#[trigger] next@[q]) < ncommits
                            && !vis0[next@[q] as int] && visited@[next@[q] as int] && reach_in(
                            *repo,
                            tc,
                            next@[q],
                            (d + 1) as nat,
                        ),
                    forall|x: usize|
                        x < ncommits && #[trigger] visited@[x as int] ==> vis0[x as int]
                            || next@.contains(x),
                    forall|g: int|
                        0 <= g < gi ==> walked(*repo, visited@, #[trigger] frontier@[g]),
                    forall|jj: int|
                        0 <= jj < j ==> {
                            &&& (#[trigger] canon_parent(*repo, y, jj)) is Some
                            &&& canon_parent(*repo, y, jj)->Some_0 < ncommits
                            &&& visited@[canon_parent(*repo, y, jj)->Some_0 as int]
                        },
                    num_marked(visited@) >= marked0,
                    next@.len() > 0 ==> num_marked(visited@) > marked0,
                decreases np - j,
            {
                let p0 = repo.commits[y].parents[j];
                let mut p = p0;
                match replace(repo, &mut p) {
                    Ok(_) => {},
                    Err(_) => {
                        proof {
                            assert(reaches(*repo, tc, y)) by {
                                assert(reach_in(*repo, tc, y, d));
                            }
                            assert(no_branch_target(*repo, tag@, cands@)) by {
                                assert(tag_target(*repo, tag@) == Some(tc));
                            }
                        }
                        return None;
                    },
                }
                proof {
                    assert(canon_parent(*repo, y, j as int) == Some(p));
                    lemma_reach_step(*repo, tc, y, d, j as int, p);
                }
                if !visited[p] {
                    let ghost visb = visited@;
                    let ghost next0 = next@;
                    proof {
                        lemma_num_marked_set(visited@, p as int);
                    }
                    visited.set(p, true);
                    next.push(p);
                    proof {
                        assert(next@.last() == p);
                        assert(next@.contains(p));
                        assert forall|g: int|
                            0 <= g < gi implies walked(*repo, visited@, #[trigger] frontier@[g]) by {
                            assert(walked(*repo, visb, frontier@[g]));
                        }
                        assert forall|x: usize|
                            x < ncommits && #[trigger] visited@[x as int] implies vis0[x as int]
                            || next@.contains(x) by {
                            if !vis0[x as int] && x != p {
                                assert(visb[x as int]);
                                assert(next0.contains(x));
                                let q = choose|q: int| 0 <= q < next0.len() && next0[q] == x;
                                assert(next@[q] == x);
                            }
                        }
                    }
                }
                j = j + 1;
            }
            proof {
                assert(walked(*repo, visited@, y));
            }
            gi = gi + 1;
        }
        if next.len() == 0 {
            proof {
                assert forall|x: usize|
                    x < ncommits && visited@[x as int] implies walked(*repo, visited@, x) by {
                    assert(vis0[x as int]);
                    if fr0.contains(x) {
                        let g = choose|g: int| 0 <= g < fr0.len() && fr0[g] == x;
                        assert(walked(*repo, visited@, fr0[g]));
                    } else {
                        assert(walked(*repo, vis0, x));
                    }
                }
                assert forall|c2: usize| cands@.contains(c2) implies !reaches(
                    *repo,
                    tc,
                    c2,
                ) by {
                    if reaches(*repo, tc, c2) {
                        let k = choose|k: nat| reach_in(*repo, tc, c2, k);
                        lemma_visit_complete(*repo, visited@, tc, c2, k);
                        if frontier@.contains(c2) {
                            let g = choose|g: int|
                                0 <= g < frontier@.len() && frontier@[g] == c2;
                        }
                    }
                }
                assert(no_branch_target(*repo, tag@, cands@)) by {
                    assert(tag_target(*repo, tag@) == Some(tc));
                }
            }
            return None;
        }
        proof {
            assert(forall|g: int|
                0 <= g < fr0.len() ==> walked(*repo, visited@, #[trigger] fr0[g]));
        }
        frontier = next;
        proof {
            lemma_num_marked_le(visited@);
            let dn: nat = (d + 1) as nat;
            assert forall|x: usize, k: nat|
                k < dn && #[trigger] reach_in(*repo, tc, x, k) implies x < ncommits
                && visited@[x as int] && !frontier@.contains(x) by {
                assert(vis0[x as int]);
                if frontier@.contains(x) {
                    let q = choose|q: int| 0 <= q < frontier@.len() && frontier@[q] == x;
                }
            }
            assert forall|x: usize| #[trigger] reach_in(*repo, tc, x, dn) implies x < ncommits
                && visited@[x as int] by {
                lemma_reach_tail(*repo, tc, x, dn);
                let (y, jy) = choose|y: usize, jy: int|
                    reach_in(*repo, tc, y, d) && 0 <= jy
                        < repo.commits@[y as int].parents@.len() && #[trigger] canon_parent(
                        *repo,
                        y,
                        jy,
                    ) == Some(x);
                assert(y < ncommits && vis0[y as int]);
                if fr0.contains(y) {
                    let g = choose|g: int| 0 <= g < fr0.len() && fr0[g] == y;
                    assert(walked(*repo, visited@, y));
                } else {
                    assert(walked(*repo, vis0, y));
                }
            }
            assert forall|x: usize|
                x < ncommits && #[trigger] visited@[x as int] && !frontier@.contains(x)
                    implies !cands@.contains(x) && walked(*repo, visited@, x) by {
                assert(vis0[x as int]);
                if fr0.contains(x) {
                    let g = choose|g: int| 0 <= g < fr0.len() && fr0[g] == x;
                    assert(walked(*repo, visited@, x));
                    assert(!cands@.contains(x));
                } else {
                    assert(walked(*repo, vis0, x));
                }
            }
            d = dn;
        }
    }
    proof {
        assert forall|x: usize|
            x < ncommits && visited@[x as int] implies walked(*repo, visited@, x) by {}
        assert forall|c2: usize| cands@.contains(c2) implies !reaches(*repo, tc, c2) by {
            if reaches(*repo, tc, c2) {
                let k = choose|k: nat| reach_in(*repo, tc, c2, k);
                lemma_visit_complete(*repo, visited@, tc, c2, k);
            }
        }
        assert(no_branch_target(*repo, tag@, cands@)) by {
            assert(tag_target(*repo, tag@) == Some(tc));
        }
    }
    None
}

} // verus!
