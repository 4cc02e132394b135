//! Path-addressed reads and writes over nested tables, and the interpreter's
//! scope stack. A path `a/b/c` is resolved segment by segment from the current
//! scope; the scope stack is a sequence of keys leading from the root table to
//! the current scope, so no operation can ever detach an entered scope.

use vstd::prelude::*;
use vstd::pervasive::unreached;
use crate::errors::Error;
use crate::value::{Val, ValModel, Table};

verus! {

/// The views of a sequence of strings.
pub open spec fn seq_strs(v: Seq<String>) -> Seq<Seq<char>> {
    v.map_values(|s: String| s@)
}

pub proof fn lemma_seq_strs_push(v: Seq<String>, x: String)
    ensures
        seq_strs(v.push(x)) == seq_strs(v).push(x@),
{
    assert(seq_strs(v.push(x)) =~= seq_strs(v).push(x@));
}

pub proof fn lemma_seq_strs_app(a: Seq<String>, b: Seq<String>)
    ensures
        seq_strs(a + b) == seq_strs(a) + seq_strs(b),
{
    assert(seq_strs(a + b) =~= seq_strs(a) + seq_strs(b));
}

/// The index of the first `/` in `s`, or -1 if there is none.
pub open spec fn first_slash(s: Seq<char>) -> int
    decreases s.len(),
{
    if s.len() == 0 {
        -1
    } else if s[0] == '/' {
        0
    } else {
        let r = first_slash(s.skip(1));
        if r < 0 {
            -1
        } else {
            r + 1
        }
    }
}

/// Splitting a string at `/`, exactly as `str::split('/')` does: every string
/// splits into at least one (possibly empty) segment.
pub open spec fn split_path(s: Seq<char>) -> Seq<Seq<char>>
    decreases s.len(),
    via split_path_decreases
{
    let i = first_slash(s);
    if i < 0 {
        seq![s]
    } else {
        seq![s.subrange(0, i)] + split_path(s.skip(i + 1))
    }
}

#[via_fn]
proof fn split_path_decreases(s: Seq<char>) {
    lemma_first_slash(s);
}

proof fn lemma_first_slash(s: Seq<char>)
    ensures
        first_slash(s) < 0 ==> forall|j: int| 0 <= j < s.len() ==> s[j] != '/',
        first_slash(s) >= 0 ==> first_slash(s) < s.len() && s[first_slash(s)] == '/' && forall|
            j: int,
        | 0 <= j < first_slash(s) ==> s[j] != '/',
    decreases s.len(),
{
    if s.len() > 0 && s[0] != '/' {
        lemma_first_slash(s.skip(1));
        let r = first_slash(s.skip(1));
        if r < 0 {
            assert forall|j: int| 0 <= j < s.len() implies s[j] != '/' by {
                if j > 0 {
                    assert(s.skip(1)[j - 1] != '/');
                }
            }
        } else {
            assert(s[first_slash(s)] == s.skip(1)[r]);
            assert forall|j: int| 0 <= j < first_slash(s) implies s[j] != '/' by {
                if j > 0 {
                    assert(s.skip(1)[j - 1] != '/');
                }
            }
        }
    }
}

pub proof fn lemma_split_path_len(s: Seq<char>)
    ensures
        split_path(s).len() >= 1,
    decreases s.len(),
{
    let i = first_slash(s);
    if i >= 0 {
        lemma_first_slash(s);
        lemma_split_path_len(s.skip(i + 1));
    }
}

/// A string without `/` splits into itself alone.
pub proof fn lemma_split_no_slash(s: Seq<char>)
    requires
        forall|j: int| 0 <= j < s.len() ==> s[j] != '/',
    ensures
        split_path(s) == seq![s],
{
    lemma_first_slash(s);
    if first_slash(s) >= 0 {
        assert(s[first_slash(s)] == '/');
    }
}

/// Splits a string at `/`, exactly as `split_path` describes.
pub fn split_str(s: &str) -> (r: Vec<String>)
    ensures
        seq_strs(r@) == split_path(s@),
        r@.len() >= 1,
    decreases s@.len(),
{
    let len = s.unicode_len();
    let mut i: usize = 0;
    let mut found: Option<usize> = None;
    while i < len
        invariant_except_break
            i <= len,
            len == s@.len(),
            found is None,
            forall|q: int| 0 <= q < i ==> s@[q] != '/',
        ensures
            match found {
                Some(j) => j < s@.len() && s@[j as int] == '/' && forall|q: int|
                    0 <= q < j ==> s@[q] != '/',
                None => forall|q: int| 0 <= q < s@.len() ==> s@[q] != '/',
            },
        decreases len - i,
    {
        if s.get_char(i) == '/' {
            found = Some(i);
            break;
        }
        i = i + 1;
    }
    proof {
        lemma_first_slash(s@);
    }
    match found {
        None => {
            assert(first_slash(s@) < 0) by {
                if first_slash(s@) >= 0 {
                    assert(s@[first_slash(s@)] == '/');
                }
            }
            let mut r: Vec<String> = Vec::new();
            r.push(String::from_str(s));
            assert(seq_strs(r@) =~= split_path(s@));
            r
        },
        Some(j) => {
            assert(first_slash(s@) == j) by {
                if first_slash(s@) < 0 {
                } else if first_slash(s@) < j {
                    assert(s@[first_slash(s@)] == '/');
                } else if first_slash(s@) > j {
                    assert(s@[j as int] != '/');
                }
            }
            let head = s.substring_char(0, j);
            let tail = s.substring_char(j + 1, len);
            assert(tail@ == s@.skip(j + 1));
            let mut rest = split_str(tail);
            let mut r: Vec<String> = Vec::new();
            r.push(String::from_str(head));
            r.append(&mut rest);
            assert(seq_strs(r@) =~= split_path(s@));
            r
        },
    }
}

/// The outcome of resolving a path against nested tables.
pub enum Looked {
    /// The path names this value.
    Found(ValModel),
    /// Some segment is missing: an undefined symbol.
    Absent,
    /// Some interior segment names a value that is not a table.
    Blocked,
}

/// Reads the value at `p`, walking interior tables.
pub open spec fn m_get(m: Map<Seq<char>, ValModel>, p: Seq<Seq<char>>) -> Looked
    decreases p.len(),
{
    if p.len() == 0 {
        Looked::Absent
    } else if !m.contains_key(p[0]) {
        Looked::Absent
    } else if p.len() == 1 {
        Looked::Found(m[p[0]])
    } else {
        match m[p[0]] {
            ValModel::Table(t) => m_get(t, p.skip(1)),
            _ => Looked::Blocked,
        }
    }
}

/// Writes `v` at `p`, creating missing interior tables; `None` when an
/// interior segment names a non-table (in which case nothing changes).
pub open spec fn m_set(m: Map<Seq<char>, ValModel>, p: Seq<Seq<char>>, v: ValModel) -> Option<
    Map<Seq<char>, ValModel>,
>
    decreases p.len(),
{
    if p.len() == 0 {
        None
    } else if p.len() == 1 {
        Some(m.insert(p[0], v))
    } else {
        let sub = if m.contains_key(p[0]) {
            m[p[0]]
        } else {
            ValModel::Table(Map::empty())
        };
        match sub {
            ValModel::Table(t) => match m_set(t, p.skip(1), v) {
                Some(t2) => Some(m.insert(p[0], ValModel::Table(t2))),
                None => None,
            },
            _ => None,
        }
    }
}

/// Removes the value at `p`, creating missing interior tables on the way (a
/// quirk of `del` that is observable and therefore kept); a missing tail key
/// is silently ignored.
pub open spec fn m_del(m: Map<Seq<char>, ValModel>, p: Seq<Seq<char>>) -> Option<
    Map<Seq<char>, ValModel>,
>
    decreases p.len(),
{
    if p.len() == 0 {
        None
    } else if p.len() == 1 {
        Some(m.remove(p[0]))
    } else {
        let sub = if m.contains_key(p[0]) {
            m[p[0]]
        } else {
            ValModel::Table(Map::empty())
        };
        match sub {
            ValModel::Table(t) => match m_del(t, p.skip(1)) {
                Some(t2) => Some(m.insert(p[0], ValModel::Table(t2))),
                None => None,
            },
            _ => None,
        }
    }
}

impl Table {
    /// Reads the value at the path suffix `path[i..]`.
    pub fn get_path<'a>(&'a self, path: &Vec<String>, i: usize) -> (r: Result<&'a Val, Error>)
        requires
            self.wf(),
            i < path@.len(),
        ensures
            match r {
                Ok(v) => m_get(self.model(), seq_strs(path@).skip(i as int)) == Looked::Found(
                    v.model(),
                ) && v.wf(),
                Err(e) => (e is UndefinedSymbol && m_get(self.model(), seq_strs(path@).skip(i as int))
                    is Absent) || (e is NotATable && m_get(self.model(), seq_strs(path@).skip(
                    i as int,
                )) is Blocked),
            },
        decreases path@.len() - i,
    {
        let ghost p = seq_strs(path@).skip(i as int);
        assert(p[0] == path@[i as int]@);
        let n = path.len();
        match self.get(&path[i]) {
            None => Err(Error::UndefinedSymbol),
            Some(v) => {
                if i + 1 == n {
                    Ok(v)
                } else {
                    assert(p.len() > 1);
                    match v {
                        Val::Table(t) => {
                            let r = t.get_path(path, i + 1);
                            assert(seq_strs(path@).skip(i as int + 1) =~= p.skip(1));
                            r
                        },
                        _ => {
                            assert(!(v.model() is Table));
                            Err(Error::NotATable)
                        },
                    }
                }
            },
        }
    }

    /// Writes `v` at the path suffix `path[i..]`, as `m_set` describes; on
    /// error the table is unchanged.
    pub fn set_path(&mut self, path: &Vec<String>, i: usize, v: Val) -> (r: Result<(), Error>)
        requires
            old(self).wf(),
            i < path@.len(),
            v.wf(),
        ensures
            final(self).wf(),
            match r {
                Ok(()) => Some(final(self).model()) == m_set(
                    old(self).model(),
                    seq_strs(path@).skip(i as int),
                    v.model(),
                ),
                Err(e) => e is NotATable && m_set(
                    old(self).model(),
                    seq_strs(path@).skip(i as int),
                    v.model(),
                ) is None && final(self).model() == old(self).model(),
            },
        decreases path@.len() - i,
    {
        let ghost p = seq_strs(path@).skip(i as int);
        assert(p[0] == path@[i as int]@);
        let n = path.len();
        let key = String::from_str(path[i].as_str());
        if i + 1 == n {
            self.insert(key, v);
            return Ok(());
        }
        assert(p.len() > 1);
        let ghost m0 = self.model();
        match self.remove_entry(&key) {
            None => {
                let mut sub = Table::new();
                match sub.set_path(path, i + 1, v) {
                    Ok(()) => {
                        self.insert(key, Val::Table(sub));
                        proof {
                            assert(seq_strs(path@).skip(i as int + 1) =~= p.skip(1));
                            assert(m0.remove(p[0]) =~= m0);
                            assert(Some(self.model()) =~= m_set(m0, p, v.model()));
                        }
                        Ok(())
                    },
                    Err(e) => {
                        proof {
                            assert(seq_strs(path@).skip(i as int + 1) =~= p.skip(1));
                            assert(self.model() =~= m0);
                        }
                        Err(e)
                    },
                }
            },
            Some(Val::Table(mut t)) => {
                let ghost tm = t.model();
                match t.set_path(path, i + 1, v) {
                    Ok(()) => {
                        self.insert(key, Val::Table(t));
                        proof {
                            assert(seq_strs(path@).skip(i as int + 1) =~= p.skip(1));
                            assert(Some(self.model()) =~= m_set(m0, p, v.model()));
                        }
                        Ok(())
                    },
                    Err(e) => {
                        self.insert(key, Val::Table(t));
                        proof {
                            assert(seq_strs(path@).skip(i as int + 1) =~= p.skip(1));
                            assert(self.model() =~= m0);
                        }
                        Err(e)
                    },
                }
            },
            Some(other) => {
                self.insert(key, other);
                proof {
                    assert(!(other.model() is Table));
                    assert(self.model() =~= m0);
                }
                Err(Error::NotATable)
            },
        }
    }

    /// Removes the value at the path suffix `path[i..]`, as `m_del` describes.
    pub fn del_path(&mut self, path: &Vec<String>, i: usize) -> (r: Result<(), Error>)
        requires
            old(self).wf(),
            i < path@.len(),
        ensures
            final(self).wf(),
            match r {
                Ok(()) => Some(final(self).model()) == m_del(
                    old(self).model(),
                    seq_strs(path@).skip(i as int),
                ),
                Err(e) => e is NotATable && m_del(
                    old(self).model(),
                    seq_strs(path@).skip(i as int),
                ) is None && final(self).model() == old(self).model(),
            },
        decreases path@.len() - i,
    {
        let ghost p = seq_strs(path@).skip(i as int);
        assert(p[0] == path@[i as int]@);
        let n = path.len();
        let key = String::from_str(path[i].as_str());
        if i + 1 == n {
            self.remove_entry(&key);
            return Ok(());
        }
        assert(p.len() > 1);
        let ghost m0 = self.model();
        match self.remove_entry(&key) {
            None => {
                let mut sub = Table::new();
                match sub.del_path(path, i + 1) {
                    Ok(()) => {
                        self.insert(key, Val::Table(sub));
                        proof {
                            assert(seq_strs(path@).skip(i as int + 1) =~= p.skip(1));
                            assert(m0.remove(p[0]) =~= m0);
                            assert(Some(self.model()) =~= m_del(m0, p));
                        }
                        Ok(())
                    },
                    Err(e) => {
                        proof {
                            assert(seq_strs(path@).skip(i as int + 1) =~= p.skip(1));
                            assert(self.model() =~= m0);
                        }
                        Err(e)
                    },
                }
            },
            Some(Val::Table(mut t)) => {
                match t.del_path(path, i + 1) {
                    Ok(()) => {
                        self.insert(key, Val::Table(t));
                        proof {
                            assert(seq_strs(path@).skip(i as int + 1) =~= p.skip(1));
                            assert(Some(self.model()) =~= m_del(m0, p));
                        }
                        Ok(())
                    },
                    Err(e) => {
                        self.insert(key, Val::Table(t));
                        proof {
                            assert(seq_strs(path@).skip(i as int + 1) =~= p.skip(1));
                            assert(self.model() =~= m0);
                        }
                        Err(e)
                    },
                }
            },
            Some(other) => {
                self.insert(key, other);
                proof {
                    assert(!(other.model() is Table));
                    assert(self.model() =~= m0);
                }
                Err(Error::NotATable)
            },
        }
    }
}

/// Every prefix of the scope path names an interior table.
pub open spec fn scope_ok(m: Map<Seq<char>, ValModel>, segs: Seq<Seq<char>>) -> bool
    decreases segs.len(),
{
    segs.len() == 0 || (m.contains_key(segs[0]) && m[segs[0]] is Table && scope_ok(
        m[segs[0]]->Table_0,
        segs.skip(1),
    ))
}

/// The table at the end of the scope path.
pub open spec fn scope_map(m: Map<Seq<char>, ValModel>, segs: Seq<Seq<char>>) -> Map<
    Seq<char>,
    ValModel,
>
    decreases segs.len(),
{
    if segs.len() == 0 {
        m
    } else {
        scope_map(m[segs[0]]->Table_0, segs.skip(1))
    }
}

/// Reading below the scope reads in the scope's table.
pub proof fn lemma_scope_get(m: Map<Seq<char>, ValModel>, segs: Seq<Seq<char>>, p: Seq<Seq<char>>)
    requires
        scope_ok(m, segs),
        p.len() >= 1,
    ensures
        m_get(m, segs + p) == m_get(scope_map(m, segs), p),
    decreases segs.len(),
{
    if segs.len() == 0 {
        assert(segs + p =~= p);
    } else {
        assert((segs + p)[0] == segs[0]);
        assert((segs + p).skip(1) =~= segs.skip(1) + p);
        lemma_scope_get(m[segs[0]]->Table_0, segs.skip(1), p);
    }
}

/// Writing below the scope rewrites exactly the scope's table, and keeps
/// every scope prefix intact.
pub proof fn lemma_scope_set(
    m: Map<Seq<char>, ValModel>,
    segs: Seq<Seq<char>>,
    p: Seq<Seq<char>>,
    v: ValModel,
)
    requires
        scope_ok(m, segs),
        p.len() >= 1,
    ensures
        m_set(m, segs + p, v) is None <==> m_set(scope_map(m, segs), p, v) is None,
        m_set(m, segs + p, v) matches Some(m2) ==> scope_ok(m2, segs) && Some(
            scope_map(m2, segs),
        ) == m_set(scope_map(m, segs), p, v),
    decreases segs.len(),
{
    if segs.len() == 0 {
        assert(segs + p =~= p);
    } else {
        let h = segs[0];
        let t = m[h]->Table_0;
        assert((segs + p)[0] == h);
        assert((segs + p).skip(1) =~= segs.skip(1) + p);
        lemma_scope_set(t, segs.skip(1), p, v);
        match m_set(t, segs.skip(1) + p, v) {
            Some(t2) => {
                let m2 = m.insert(h, ValModel::Table(t2));
                assert(m_set(m, segs + p, v) == Some(m2));
                assert(m2.contains_key(h) && m2[h] is Table);
            },
            None => {},
        }
    }
}

/// Deleting below the scope rewrites exactly the scope's table, and keeps
/// every scope prefix intact.
pub proof fn lemma_scope_del(m: Map<Seq<char>, ValModel>, segs: Seq<Seq<char>>, p: Seq<Seq<char>>)
    requires
        scope_ok(m, segs),
        p.len() >= 1,
    ensures
        m_del(m, segs + p) is None <==> m_del(scope_map(m, segs), p) is None,
        m_del(m, segs + p) matches Some(m2) ==> scope_ok(m2, segs) && Some(
            scope_map(m2, segs),
        ) == m_del(scope_map(m, segs), p),
    decreases segs.len(),
{
    if segs.len() == 0 {
        assert(segs + p =~= p);
    } else {
        let h = segs[0];
        let t = m[h]->Table_0;
        assert((segs + p)[0] == h);
        assert((segs + p).skip(1) =~= segs.skip(1) + p);
        lemma_scope_del(t, segs.skip(1), p);
        match m_del(t, segs.skip(1) + p) {
            Some(t2) => {
                let m2 = m.insert(h, ValModel::Table(t2));
                assert(m_del(m, segs + p) == Some(m2));
                assert(m2.contains_key(h) && m2[h] is Table);
            },
            None => {},
        }
    }
}

/// What one `set` then `get` of the same path yields: the value just written.
pub proof fn lemma_set_then_get(m: Map<Seq<char>, ValModel>, p: Seq<Seq<char>>, v: ValModel)
    requires
        p.len() >= 1,
        m_set(m, p, v) is Some,
    ensures
        m_get(m_set(m, p, v)->Some_0, p) == Looked::Found(v),
    decreases p.len(),
{
    if p.len() > 1 {
        let sub = if m.contains_key(p[0]) {
            m[p[0]]
        } else {
            ValModel::Table(Map::empty())
        };
        lemma_set_then_get(sub->Table_0, p.skip(1), v);
    }
}

/// `exists` is `get`: the stored flag is 1 exactly when the path resolves.
pub open spec fn exists_flag(m: Map<Seq<char>, ValModel>, p: Seq<Seq<char>>) -> int {
    if m_get(m, p) is Found {
        1
    } else {
        0
    }
}

/// The flag `exists` stores is 1 if and only if `get` of the same path
/// succeeds.
pub proof fn lemma_exists_iff_get(m: Map<Seq<char>, ValModel>, p: Seq<Seq<char>>)
    ensures
        (exists_flag(m, p) == 1) <==> (m_get(m, p) is Found),
{
}


/// One `enter` step for a single segment `k`: push into an existing nested
/// table, create it first when missing, refuse a non-table.
pub open spec fn enter_one(
    m: Map<Seq<char>, ValModel>,
    segs: Seq<Seq<char>>,
    k: Seq<char>,
) -> Option<Map<Seq<char>, ValModel>> {
    let sc = scope_map(m, segs);
    if sc.contains_key(k) {
        if sc[k] is Table {
            Some(m)
        } else {
            None
        }
    } else {
        m_set(m, segs.push(k), ValModel::Table(Map::empty()))
    }
}

/// `enter` over a whole path: each segment pushes one scope; on a non-table
/// segment the segments entered so far remain entered.
pub open spec fn enter_path(
    m: Map<Seq<char>, ValModel>,
    segs: Seq<Seq<char>>,
    parts: Seq<Seq<char>>,
) -> (Map<Seq<char>, ValModel>, Seq<Seq<char>>, bool)
    decreases parts.len(),
{
    if parts.len() == 0 {
        (m, segs, true)
    } else {
        match enter_one(m, segs, parts[0]) {
            Some(m2) => enter_path(m2, segs.push(parts[0]), parts.skip(1)),
            None => (m, segs, false),
        }
    }
}

/// Entering an existing nested table extends the scope chain.
pub proof fn lemma_scope_push(m: Map<Seq<char>, ValModel>, segs: Seq<Seq<char>>, k: Seq<char>)
    requires
        scope_ok(m, segs),
        scope_map(m, segs).contains_key(k),
        scope_map(m, segs)[k] is Table,
    ensures
        scope_ok(m, segs.push(k)),
        scope_map(m, segs.push(k)) == scope_map(m, segs)[k]->Table_0,
    decreases segs.len(),
{
    if segs.len() == 0 {
        assert(segs.push(k) =~= seq![k]);
        assert(seq![k][0] == k);
        assert(seq![k].skip(1) =~= Seq::<Seq<char>>::empty());
        assert(scope_ok(m[k]->Table_0, seq![k].skip(1)));
        assert(scope_ok(m, seq![k]));
        assert(scope_map(m, seq![k]) == scope_map(m[k]->Table_0, seq![k].skip(1)));
    } else {
        assert(segs.push(k)[0] == segs[0]);
        assert(segs.push(k).skip(1) =~= segs.skip(1).push(k));
        lemma_scope_push(m[segs[0]]->Table_0, segs.skip(1), k);
        assert(scope_ok(m, segs.push(k)));
    }
}

/// Leaving a scope keeps the remaining chain valid.
pub proof fn lemma_scope_drop(m: Map<Seq<char>, ValModel>, segs: Seq<Seq<char>>)
    requires
        scope_ok(m, segs),
        segs.len() > 0,
    ensures
        scope_ok(m, segs.drop_last()),
    decreases segs.len(),
{
    if segs.len() == 1 {
        assert(segs.drop_last() =~= Seq::<Seq<char>>::empty());
    } else {
        assert(segs.drop_last()[0] == segs[0]);
        assert(segs.drop_last().skip(1) =~= segs.skip(1).drop_last());
        lemma_scope_drop(m[segs[0]]->Table_0, segs.skip(1));
    }
}

/// The interpreter's data state: one root table, and the chain of keys
/// leading to the current scope.
pub struct Instance {
    pub root: Table,
    pub entered: Vec<String>,
}

impl Instance {
    /// The root table is well-formed and every entered segment names a
    /// nested table.
    pub open spec fn inv(self) -> bool {
        self.root.wf() && scope_ok(self.root.model(), seq_strs(self.entered@))
    }

    pub open spec fn root_model(self) -> Map<Seq<char>, ValModel> {
        self.root.model()
    }

    pub open spec fn entered_model(self) -> Seq<Seq<char>> {
        seq_strs(self.entered@)
    }

    /// The table of the current scope.
    pub open spec fn scope(self) -> Map<Seq<char>, ValModel> {
        scope_map(self.root.model(), seq_strs(self.entered@))
    }

    /// A fresh instance: empty root, no scopes entered.
    pub fn new() -> (r: Instance)
        ensures
            r.inv(),
            r.root_model() == Map::<Seq<char>, ValModel>::empty(),
            r.entered_model() == Seq::<Seq<char>>::empty(),
    {
        let r = Instance { root: Table::new(), entered: Vec::new() };
        proof {
            assert(seq_strs(r.entered@) =~= Seq::<Seq<char>>::empty());
        }
        r
    }

    /// The current scope's table: the top of the scope stack, or the root.
    pub fn table<'a>(&'a self) -> (r: &'a Table)
        requires
            self.inv(),
        ensures
            r.wf(),
            r.model() == self.scope(),
    {
        proof {
            assert(seq_strs(self.entered@).skip(0) =~= seq_strs(self.entered@));
        }
        walk_scope(&self.root, &self.entered, 0)
    }

    /// Copies the scope chain into a fresh path vector.
    fn scope_path(&self) -> (r: Vec<String>)
        ensures
            seq_strs(r@) == self.entered_model(),
    {
        let ne = self.entered.len();
        let mut full: Vec<String> = Vec::new();
        let mut j: usize = 0;
        while j < ne
            invariant
                j <= ne,
                ne == self.entered@.len(),
                seq_strs(full@) == seq_strs(self.entered@).subrange(0, j as int),
            decreases ne - j,
        {
            let piece = String::from_str(self.entered[j].as_str());
            let ghost pv = piece@;
            let ghost pre = full@;
            full.push(piece);
            proof {
                assert(full@.last()@ == self.entered@[j as int]@);
                lemma_seq_strs_push(pre, full@.last());
                assert(pre.push(full@.last()) == full@);
                assert(seq_strs(full@) =~= seq_strs(self.entered@).subrange(0, j + 1));
            }
            j = j + 1;
        }
        assert(seq_strs(self.entered@).subrange(0, ne as int) =~= seq_strs(self.entered@));
        full
    }

    /// Writes `val` at the path `var`, resolved from the current scope,
    /// exactly as `m_set` over the full path from the root describes.
    pub fn set(&mut self, var: &str, val: Val) -> (r: Result<(), Error>)
        requires
            old(self).inv(),
            val.wf(),
        ensures
            final(self).inv(),
            final(self).entered_model() == old(self).entered_model(),
            match r {
                Ok(()) => Some(final(self).root_model()) == m_set(
                    old(self).root_model(),
                    old(self).entered_model() + split_path(var@),
                    val.model(),
                ),
                Err(e) => e is NotATable && m_set(
                    old(self).root_model(),
                    old(self).entered_model() + split_path(var@),
                    val.model(),
                ) is None && final(self).root_model() == old(self).root_model(),
            },
    {
        let mut full = self.scope_path();
        let mut parts = split_str(var);
        full.append(&mut parts);
        let ghost segs = old(self).entered_model();
        let ghost p = split_path(var@);
        proof {
            assert(seq_strs(full@) =~= segs + p);
            assert(seq_strs(full@).skip(0) =~= segs + p);
            lemma_scope_set(old(self).root_model(), segs, p, val.model());
        }
        let r = self.root.set_path(&full, 0, val);
        proof {
            match r {
                Ok(()) => {},
                Err(_) => {},
            }
        }
        r
    }

    /// Deletes the path `var`, resolved from the current scope, exactly as
    /// `m_del` over the full path from the root describes.
    pub fn del(&mut self, var: &str) -> (r: Result<(), Error>)
        requires
            old(self).inv(),
        ensures
            final(self).inv(),
            final(self).entered_model() == old(self).entered_model(),
            match r {
                Ok(()) => Some(final(self).root_model()) == m_del(
                    old(self).root_model(),
                    old(self).entered_model() + split_path(var@),
                ),
                Err(e) => e is NotATable && m_del(
                    old(self).root_model(),
                    old(self).entered_model() + split_path(var@),
                ) is None && final(self).root_model() == old(self).root_model(),
            },
    {
        let mut full = self.scope_path();
        let mut parts = split_str(var);
        full.append(&mut parts);
        let ghost segs = old(self).entered_model();
        let ghost p = split_path(var@);
        proof {
            assert(seq_strs(full@) =~= segs + p);
            assert(seq_strs(full@).skip(0) =~= segs + p);
            lemma_scope_del(old(self).root_model(), segs, p);
        }
        self.root.del_path(&full, 0)
    }

    /// Enters the nested table path `table`, creating missing tables: each
    /// segment pushes one scope, exactly as `enter_path` describes.
    pub fn enter_table(&mut self, table: &str) -> (r: Result<(), Error>)
        requires
            old(self).inv(),
        ensures
            final(self).inv(),
            ({
                let (m2, segs2, ok) = enter_path(
                    old(self).root_model(),
                    old(self).entered_model(),
                    split_path(table@),
                );
                final(self).root_model() == m2 && final(self).entered_model() == segs2 && (
                r is Ok <==> ok) && (r matches Err(e) ==> e is NotATable)
            }),
    {
        let parts = split_str(table);
        let n = parts.len();
        let ghost m0 = old(self).root_model();
        let ghost segs0 = old(self).entered_model();
        let ghost pp = split_path(table@);
        let mut j: usize = 0;
        proof {
            assert(pp.skip(0) =~= pp);
        }
        while j < n
            invariant
                j <= n,
                n == parts@.len(),
                seq_strs(parts@) == pp,
                m0 == old(self).root_model(),
                segs0 == old(self).entered_model(),
                pp == split_path(table@),
                self.inv(),
                enter_path(m0, segs0, pp) == enter_path(
                    self.root_model(),
                    self.entered_model(),
                    pp.skip(j as int),
                ),
            decreases n - j,
        {
            let ghost mj = self.root_model();
            let ghost segsj = self.entered_model();
            let ghost k = parts@[j as int]@;
            assert(pp.skip(j as int)[0] == k);
            let mut missing = false;
            let mut blocked = false;
            {
                let sc = self.table();
                match sc.get(&parts[j]) {
                    Some(v) => match v {
                        Val::Table(_) => {
                            proof {
                                assert(self.scope().contains_key(k) && self.scope()[k] is Table);
                            }
                        },
                        _ => {
                            proof {
                                assert(!(v.model() is Table));
                                assert(self.scope().contains_key(k) && !(self.scope()[k]
                                    is Table));
                            }
                            blocked = true;
                        },
                    },
                    None => {
                        proof {
                            assert(!self.scope().contains_key(k));
                        }
                        missing = true;
                    },
                }
            }
            if blocked {
                proof {
                    assert(enter_one(mj, segsj, k) is None);
                    assert(pp.skip(j as int).len() > 0);
                    assert(enter_path(mj, segsj, pp.skip(j as int)) == (mj, segsj, false));
                }
                return Err(Error::NotATable);
            }
            if missing {
                let mut full = self.scope_path();
                let ghost base = full@;
                full.push(String::from_str(parts[j].as_str()));
                proof {
                    assert(full@.last()@ == k);
                    lemma_seq_strs_push(base, full@.last());
                    assert(base.push(full@.last()) == full@);
                    assert(seq_strs(full@) =~= segsj.push(k));
                    assert(segsj.push(k) =~= segsj + seq![k]);
                    lemma_scope_set(mj, segsj, seq![k], ValModel::Table(Map::empty()));
                    assert(seq![k].len() == 1 && seq![k][0] == k);
                    assert(m_set(scope_map(mj, segsj), seq![k], ValModel::Table(Map::empty()))
                        is Some);
                }
                let rr = self.root.set_path(&full, 0, Val::Table(Table::new()));
                proof {
                    assert(seq_strs(full@).skip(0) =~= segsj + seq![k]);
                }
                match rr {
                    Ok(()) => {},
                    Err(_) => {
                        proof {
                            assert(false);
                        }
                    },
                }
                proof {
                    assert(Some(self.root_model()) == m_set(
                        mj,
                        segsj + seq![k],
                        ValModel::Table(Map::empty()),
                    ));
                    assert(enter_one(mj, segsj, k) == Some(self.root_model()));
                    assert(Some(scope_map(self.root_model(), segsj)) == m_set(
                        scope_map(mj, segsj),
                        seq![k],
                        ValModel::Table(Map::empty()),
                    ));
                    assert(scope_map(self.root_model(), segsj) == scope_map(mj, segsj).insert(
                        k,
                        ValModel::Table(Map::empty()),
                    ));
                    assert(scope_map(self.root_model(), segsj).contains_key(k));
                    assert(scope_map(self.root_model(), segsj)[k] is Table);
                    lemma_scope_push(self.root_model(), segsj, k);
                }
            } else {
                proof {
                    assert(enter_one(mj, segsj, k) == Some(mj));
                    lemma_scope_push(mj, segsj, k);
                }
            }
            let ghost m2 = self.root_model();
            self.entered.push(String::from_str(parts[j].as_str()));
            proof {
                assert(self.entered_model() =~= segsj.push(k));
                assert(pp.skip(j as int).skip(1) =~= pp.skip(j as int + 1));
                assert(enter_path(mj, segsj, pp.skip(j as int)) == enter_path(
                    m2,
                    segsj.push(k),
                    pp.skip(j as int + 1),
                ));
            }
            j = j + 1;
        }
        proof {
            assert(pp.skip(n as int) =~= Seq::<Seq<char>>::empty());
        }
        Ok(())
    }

    /// Pops one scope; reports whether anything was popped.
    pub fn exit_table(&mut self) -> (r: bool)
        requires
            old(self).inv(),
        ensures
            final(self).inv(),
            final(self).root_model() == old(self).root_model(),
            r == (old(self).entered_model().len() > 0),
            final(self).entered_model() == if r {
                old(self).entered_model().drop_last()
            } else {
                old(self).entered_model()
            },
    {
        let popped = self.entered.pop();
        match popped {
            Some(_) => {
                proof {
                    assert(self.entered_model() =~= old(self).entered_model().drop_last());
                    lemma_scope_drop(self.root_model(), old(self).entered_model());
                }
                true
            },
            None => {
                proof {
                    assert(self.entered@ =~= old(self).entered@);
                }
                false
            },
        }
    }
}

/// Walks the scope chain from `t` downward.
fn walk_scope<'a>(t: &'a Table, segs: &Vec<String>, i: usize) -> (r: &'a Table)
    requires
        t.wf(),
        i <= segs@.len(),
        scope_ok(t.model(), seq_strs(segs@).skip(i as int)),
    ensures
        r.wf(),
        r.model() == scope_map(t.model(), seq_strs(segs@).skip(i as int)),
    decreases segs@.len() - i,
{
    let n = segs.len();
    if i == n {
        proof {
            assert(seq_strs(segs@).skip(i as int) =~= Seq::<Seq<char>>::empty());
        }
        t
    } else {
        let ghost p = seq_strs(segs@).skip(i as int);
        assert(p[0] == segs@[i as int]@);
        match t.get(&segs[i]) {
            Some(v) => match v {
                Val::Table(sub) => {
                    proof {
                        assert(seq_strs(segs@).skip(i as int + 1) =~= p.skip(1));
                    }
                    walk_scope(sub, segs, i + 1)
                },
                _ => {
                    proof {
                        assert(v.model() is Table);
                        assert(false);
                    }
                    unreached()
                },
            },
            None => {
                proof {
                    assert(false);
                }
                unreached()
            },
        }
    }
}


/// One `set` at a previously-absent location changes no scalar value that
/// was readable before: only tables along the new path are touched.
pub proof fn lemma_absent_set_scalars(
    m: Map<Seq<char>, ValModel>,
    p: Seq<Seq<char>>,
    v: ValModel,
)
    requires
        p.len() >= 1,
        m_get(m, p) is Absent,
        m_set(m, p, v) is Some,
    ensures
        forall|q: Seq<Seq<char>>|
            (#[trigger] m_get(m, q)) matches Looked::Found(x) && !(x is Table) ==> m_get(
                m_set(m, p, v)->Some_0,
                q,
            ) == m_get(m, q),
    decreases p.len(),
{
    let m2 = m_set(m, p, v)->Some_0;
    let h = p[0];
    assert forall|q: Seq<Seq<char>>|
        (#[trigger] m_get(m, q)) matches Looked::Found(x) && !(x is Table) implies m_get(m2, q)
        == m_get(m, q) by {
        if q.len() > 0 {
            if p.len() == 1 {
                assert(!m.contains_key(h));
                assert(m2 == m.insert(h, v));
                if q[0] != h {
                    assert(m2.contains_key(q[0]) == m.contains_key(q[0]));
                    if m.contains_key(q[0]) {
                        assert(m2[q[0]] == m[q[0]]);
                    }
                }
            } else {
                if !m.contains_key(h) {
                    let t2 = m_set(Map::empty(), p.skip(1), v)->Some_0;
                    assert(m2 == m.insert(h, ValModel::Table(t2)));
                    if q[0] != h {
                        if m.contains_key(q[0]) {
                            assert(m2[q[0]] == m[q[0]]);
                        }
                    }
                } else {
                    let t = m[h]->Table_0;
                    assert(m[h] is Table);
                    assert(m_get(t, p.skip(1)) is Absent);
                    let t2 = m_set(t, p.skip(1), v)->Some_0;
                    assert(m2 == m.insert(h, ValModel::Table(t2)));
                    lemma_absent_set_scalars(t, p.skip(1), v);
                    if q[0] == h {
                        if q.len() == 1 {
                            assert(m_get(m, q) == Looked::Found(m[h]));
                        } else {
                            assert(m_get(m, q) == m_get(t, q.skip(1)));
                            assert(m_get(m2, q) == m_get(t2, q.skip(1)));
                        }
                    } else {
                        if m.contains_key(q[0]) {
                            assert(m2[q[0]] == m[q[0]]);
                        }
                    }
                }
            }
        }
    }
}

/// What `enter` of a single segment, followed by `exit`, does to the root
/// table: the scope stack is restored; if the segment already named a table
/// the root is exactly unchanged; if it was absent, the only difference is
/// one new empty table, and every scalar that was readable before reads the
/// same afterwards.
pub proof fn lemma_enter_exit(m: Map<Seq<char>, ValModel>, segs: Seq<Seq<char>>, k: Seq<char>)
    requires
        scope_ok(m, segs),
    ensures
        enter_one(m, segs, k) matches Some(m2) ==> {
            &&& scope_ok(m2, segs)
            &&& (scope_map(m, segs).contains_key(k) ==> m2 == m)
            &&& (!scope_map(m, segs).contains_key(k) ==> Some(m2) == m_set(
                m,
                segs.push(k),
                ValModel::Table(Map::empty()),
            ) && forall|q: Seq<Seq<char>>|
                (#[trigger] m_get(m, q)) matches Looked::Found(x) && !(x is Table) ==> m_get(
                    m2,
                    q,
                ) == m_get(m, q))
        },
{
    let sc = scope_map(m, segs);
    if sc.contains_key(k) {
        if sc[k] is Table {
            assert(enter_one(m, segs, k) == Some(m));
        }
    } else {
        assert(segs + seq![k] =~= segs.push(k));
        lemma_scope_get(m, segs, seq![k]);
        assert(m_get(sc, seq![k]) is Absent);
        lemma_scope_set(m, segs, seq![k], ValModel::Table(Map::empty()));
        assert(m_set(sc, seq![k], ValModel::Table(Map::empty())) is Some);
        match m_set(m, segs.push(k), ValModel::Table(Map::empty())) {
            Some(m2) => {
                lemma_absent_set_scalars(m, segs.push(k), ValModel::Table(Map::empty()));
            },
            None => {},
        }
    }
}

} // verus!
