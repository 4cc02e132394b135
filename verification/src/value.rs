//! Runtime values: 64-bit integers, strings, and nested tables, together with
//! their mathematical model. A `Table` is modelled as a `Map` from key strings
//! to value models; the executable representation is an association list with
//! unique keys, so key order is never observable.

use vstd::prelude::*;
use crate::num::{dec_int, parse_int_spec, parse_int, render_int};
use crate::errors::Error;

verus! {

/// The mathematical shape of a value.
pub enum ValModel {
    Int(int),
    Str(Seq<char>),
    Table(Map<Seq<char>, ValModel>),
}

/// A runtime value.
pub enum Val {
    Int(i64),
    Str(String),
    Table(Table),
}

/// A mapping from string keys to values; key order is not observable.
pub struct Table {
    pub entries: Vec<(String, Val)>,
}

impl Val {
    pub open spec fn model(self) -> ValModel
        decreases self,
    {
        match self {
            Val::Int(n) => ValModel::Int(n as int),
            Val::Str(s) => ValModel::Str(s@),
            Val::Table(t) => ValModel::Table(t.model()),
        }
    }

    pub open spec fn wf(self) -> bool
        decreases self,
    {
        match self {
            Val::Table(t) => t.wf(),
            _ => true,
        }
    }
}

impl Table {
    pub open spec fn model(self) -> Map<Seq<char>, ValModel>
        decreases self,
    {
        entries_model(self.entries@)
    }

    pub open spec fn wf(self) -> bool
        decreases self,
    {
        entries_wf(self.entries@)
    }
}

/// Whether some entry of the list carries the key `k`.
pub open spec fn has_key(s: Seq<(String, Val)>, k: Seq<char>) -> bool {
    exists|i: int| 0 <= i < s.len() && (#[trigger] s[i]).0@ == k
}

/// The map described by an association list (later entries would win, but
/// well-formed lists have unique keys).
pub open spec fn entries_model(s: Seq<(String, Val)>) -> Map<Seq<char>, ValModel>
    decreases s,
{
    if s.len() == 0 {
        Map::empty()
    } else {
        entries_model(s.drop_last()).insert(s.last().0@, s.last().1.model())
    }
}

/// Unique keys, and every value well-formed.
pub open spec fn entries_wf(s: Seq<(String, Val)>) -> bool
    decreases s,
{
    s.len() == 0 || (entries_wf(s.drop_last()) && s.last().1.wf() && !has_key(
        s.drop_last(),
        s.last().0@,
    ))
}

/// The key set of the model is exactly the keys of the list, and (for unique
/// keys) each entry's value is the model's value at its key.
pub proof fn lemma_entries_lookup(s: Seq<(String, Val)>, k: Seq<char>)
    requires
        entries_wf(s),
    ensures
        entries_model(s).contains_key(k) <==> has_key(s, k),
        forall|i: int|
            0 <= i < s.len() && (#[trigger] s[i]).0@ == k ==> entries_model(s)[k] == s[i].1.model()
                && s[i].1.wf(),
    decreases s.len(),
{
    if s.len() > 0 {
        lemma_entries_lookup(s.drop_last(), k);
        let d = s.drop_last();
        assert(forall|i: int| 0 <= i < d.len() ==> d[i] == s[i]);
        if has_key(s, k) {
            let i = choose|i: int| 0 <= i < s.len() && (#[trigger] s[i]).0@ == k;
            if i < s.len() - 1 {
                assert(has_key(d, k));
            }
        }
    }
}

/// `dom` of the model is finite with as many keys as the list has entries.
pub proof fn lemma_entries_dom(s: Seq<(String, Val)>)
    requires
        entries_wf(s),
    ensures
        entries_model(s).dom().finite(),
        entries_model(s).dom().len() == s.len(),
    decreases s.len(),
{
    if s.len() == 0 {
        assert(entries_model(s).dom() =~= Set::<Seq<char>>::empty());
    } else {
        lemma_entries_dom(s.drop_last());
        lemma_entries_lookup(s.drop_last(), s.last().0@);
        assert(!entries_model(s.drop_last()).dom().contains(s.last().0@));
        assert(entries_model(s).dom() =~= entries_model(s.drop_last()).dom().insert(s.last().0@));
    }
}

/// Replacing the value at position `i` (keeping the key) updates the model at
/// that key.
proof fn lemma_entries_update(s: Seq<(String, Val)>, i: int, p: (String, Val))
    requires
        entries_wf(s),
        0 <= i < s.len(),
        p.0@ == s[i].0@,
        p.1.wf(),
    ensures
        entries_wf(s.update(i, p)),
        entries_model(s.update(i, p)) == entries_model(s).insert(p.0@, p.1.model()),
    decreases s.len(),
{
    let t = s.update(i, p);
    if i == s.len() - 1 {
        assert(t.drop_last() =~= s.drop_last());
        assert(t.last() == p);
        assert(entries_model(t) =~= entries_model(s).insert(p.0@, p.1.model()));
    } else {
        lemma_entries_update(s.drop_last(), i, p);
        assert(t.drop_last() =~= s.drop_last().update(i, p));
        assert(t.last() == s.last());
        // the updated key differs from the last key, so the two inserts commute
        assert(s.drop_last()[i] == s[i]);
        assert(has_key(s.drop_last(), s[i].0@));
        assert(p.0@ != s.last().0@);
        assert(has_key(t.drop_last(), s.last().0@) ==> has_key(s.drop_last(), s.last().0@)) by {
            if has_key(t.drop_last(), s.last().0@) {
                let j = choose|j: int|
                    0 <= j < t.drop_last().len() && (#[trigger] t.drop_last()[j]).0@
                        == s.last().0@;
                assert(s.drop_last()[j].0@ == s.last().0@);
            }
        }
        assert(entries_model(t) =~= entries_model(s).insert(p.0@, p.1.model()));
    }
}

/// Removing the entry at position `i` removes exactly its key from the model.
proof fn lemma_entries_remove(s: Seq<(String, Val)>, i: int)
    requires
        entries_wf(s),
        0 <= i < s.len(),
    ensures
        entries_wf(s.remove(i)),
        entries_model(s.remove(i)) == entries_model(s).remove(s[i].0@),
    decreases s.len(),
{
    let t = s.remove(i);
    let k = s[i].0@;
    if i == s.len() - 1 {
        assert(t =~= s.drop_last());
        lemma_entries_lookup(s.drop_last(), k);
        assert(!entries_model(s.drop_last()).contains_key(k));
        assert(entries_model(t) =~= entries_model(s).remove(k));
    } else {
        lemma_entries_remove(s.drop_last(), i);
        assert(t.drop_last() =~= s.drop_last().remove(i));
        assert(t.last() == s.last());
        assert(s.drop_last()[i] == s[i]);
        assert(has_key(s.drop_last(), k));
        assert(k != s.last().0@);
        assert(!has_key(t.drop_last(), s.last().0@)) by {
            if has_key(t.drop_last(), s.last().0@) {
                let j = choose|j: int|
                    0 <= j < t.drop_last().len() && (#[trigger] t.drop_last()[j]).0@
                        == s.last().0@;
                let jj = if j < i { j } else { j + 1 };
                assert(s.drop_last()[jj].0@ == s.last().0@);
            }
        }
        assert(entries_model(t) =~= entries_model(s).remove(k));
    }
}

impl Table {
    /// A fresh, empty table.
    pub fn new() -> (r: Table)
        ensures
            r.wf(),
            r.model() == Map::<Seq<char>, ValModel>::empty(),
    {
        Table { entries: Vec::new() }
    }

    /// How many keys the table holds.
    pub fn length(&self) -> (n: usize)
        requires
            self.wf(),
        ensures
            n == self.entries@.len(),
            n == self.model().dom().len(),
            self.model().dom().finite(),
    {
        proof {
            lemma_entries_dom(self.entries@);
        }
        self.entries.len()
    }

    /// The position of the entry with key `k`, if any.
    fn find(&self, k: &String) -> (r: Option<usize>)
        ensures
            match r {
                Some(i) => i < self.entries@.len() && self.entries@[i as int].0@ == k@,
                None => !has_key(self.entries@, k@),
            },
    {
        let n = self.entries.len();
        let mut i: usize = 0;
        while i < n
            invariant
                i <= n,
                n == self.entries@.len(),
                forall|j: int| 0 <= j < i ==> (#[trigger] self.entries@[j]).0@ != k@,
            decreases n - i,
        {
            if self.entries[i].0 == *k {
                return Some(i);
            }
            i = i + 1;
        }
        None
    }

    /// Reads the value stored under `k`.
    pub fn get<'a>(&'a self, k: &String) -> (r: Option<&'a Val>)
        requires
            self.wf(),
        ensures
            match r {
                Some(v) => self.model().contains_key(k@) && v.model() == self.model()[k@]
                    && v.wf(),
                None => !self.model().contains_key(k@),
            },
    {
        proof {
            lemma_entries_lookup(self.entries@, k@);
        }
        match self.find(k) {
            Some(i) => Some(&self.entries[i].1),
            None => None,
        }
    }

    /// Stores `v` under `k`, replacing any previous value.
    pub fn insert(&mut self, k: String, v: Val)
        requires
            old(self).wf(),
            v.wf(),
        ensures
            final(self).wf(),
            final(self).model() == old(self).model().insert(k@, v.model()),
    {
        proof {
            lemma_entries_lookup(self.entries@, k@);
        }
        match self.find(&k) {
            Some(i) => {
                proof {
                    lemma_entries_update(self.entries@, i as int, (k, v));
                }
                self.entries.set(i, (k, v));
            },
            None => {
                let ghost s0 = self.entries@;
                self.entries.push((k, v));
                proof {
                    assert(self.entries@.drop_last() =~= s0);
                }
            },
        }
    }

    /// Removes and returns the value stored under `k`.
    pub fn remove_entry(&mut self, k: &String) -> (r: Option<Val>)
        requires
            old(self).wf(),
        ensures
            final(self).wf(),
            final(self).model() == old(self).model().remove(k@),
            match r {
                Some(v) => old(self).model().contains_key(k@) && v.model()
                    == old(self).model().index(k@) && v.wf(),
                None => !old(self).model().contains_key(k@),
            },
    {
        proof {
            lemma_entries_lookup(self.entries@, k@);
        }
        match self.find(k) {
            Some(i) => {
                proof {
                    lemma_entries_remove(self.entries@, i as int);
                }
                let p = self.entries.remove(i);
                Some(p.1)
            },
            None => {
                proof {
                    assert(self.model() =~= old(self).model().remove(k@));
                }
                None
            },
        }
    }

    /// The keys, for iteration from outside.
    pub fn key_at(&self, i: usize) -> (r: &String)
        requires
            self.wf(),
            i < self.entries@.len(),
        ensures
            self.model().contains_key(r@),
    {
        proof {
            lemma_entries_lookup(self.entries@, self.entries@[i as int].0@);
        }
        &self.entries[i].0
    }
}

/// The canonical textual projection of a value: integers in decimal, strings
/// as themselves, tables as the opaque token `<table>`.
pub open spec fn render_spec(m: ValModel) -> Seq<char> {
    match m {
        ValModel::Int(n) => dec_int(n),
        ValModel::Str(s) => s,
        ValModel::Table(_) => "<table>"@,
    }
}

/// Renders a value, exactly as `render_spec` describes.
pub fn render(v: &Val) -> (r: String)
    ensures
        r@ == render_spec(v.model()),
{
    match v {
        Val::Int(n) => render_int(*n),
        Val::Str(s) => String::from_str(s.as_str()),
        Val::Table(_) => String::from_str("<table>"),
    }
}

/// The meaning of a value token: `#` followed by a decimal integer, or any
/// other token as a plain string.
pub open spec fn val_of_token(t: Seq<char>) -> Option<ValModel> {
    if t.len() > 0 && t[0] == '#' {
        match parse_int_spec(t.skip(1)) {
            Some(v) => Some(ValModel::Int(v)),
            None => None,
        }
    } else {
        Some(ValModel::Str(t))
    }
}

impl Val {
    /// Parses a value token, exactly as `val_of_token` describes.
    pub fn from_str(s: &str) -> (r: Result<Val, Error>)
        ensures
            match r {
                Ok(v) => val_of_token(s@) == Some(v.model()) && v.wf(),
                Err(e) => val_of_token(s@) is None && e is Parse,
            },
    {
        let len = s.unicode_len();
        if len > 0 && s.get_char(0) == '#' {
            let rest = s.substring_char(1, len);
            assert(rest@ == s@.skip(1));
            match parse_int(rest) {
                Some(v) => Ok(Val::Int(v)),
                None => Err(Error::Parse),
            }
        } else {
            Ok(Val::Str(String::from_str(s)))
        }
    }
}

/// Structural equality of values: same variant, same content; tables compare
/// as maps, so entry order does not matter.
pub fn val_eq(a: &Val, b: &Val) -> (r: bool)
    requires
        a.wf(),
        b.wf(),
    ensures
        r <==> a.model() == b.model(),
    decreases *a,
{
    match (a, b) {
        (Val::Int(x), Val::Int(y)) => *x == *y,
        (Val::Str(x), Val::Str(y)) => *x == *y,
        (Val::Table(x), Val::Table(y)) => table_eq(x, y),
        _ => {
            proof {
                assert(a.model() != b.model());
            }
            false
        },
    }
}

/// Structural equality of tables as maps.
pub fn table_eq(x: &Table, y: &Table) -> (r: bool)
    requires
        x.wf(),
        y.wf(),
    ensures
        r <==> x.model() == y.model(),
    decreases *x,
{
    let n = x.length();
    if n != y.length() {
        proof {
            if x.model() == y.model() {
                assert(x.model().dom() =~= y.model().dom());
            }
        }
        return false;
    }
    let mut i: usize = 0;
    while i < n
        invariant
            x.wf(),
            y.wf(),
            i <= n,
            n == x.entries@.len(),
            n == y.entries@.len(),
            x.model().dom().finite(),
            y.model().dom().finite(),
            x.model().dom().len() == n,
            y.model().dom().len() == n,
            forall|j: int|
                0 <= j < i ==> {
                    let k = (#[trigger] x.entries@[j]).0@;
                    y.model().contains_key(k) && y.model()[k] == x.model()[k]
                },
        decreases n - i,
    {
        proof {
            lemma_entries_lookup(x.entries@, x.entries@[i as int].0@);
        }
        let k = &x.entries[i].0;
        let v = &x.entries[i].1;
        match y.get(k) {
            None => {
                proof {
                    if x.model() == y.model() {
                        assert(y.model().contains_key(k@));
                    }
                }
                return false;
            },
            Some(w) => {
                if !val_eq(v, w) {
                    proof {
                        if x.model() == y.model() {
                            assert(x.model()[k@] == y.model()[k@]);
                        }
                    }
                    return false;
                }
            },
        }
        i = i + 1;
    }
    proof {
        assert forall|k: Seq<char>| #[trigger] x.model().dom().contains(k) implies y.model().dom().contains(k) && y.model()[k] == x.model()[k] by {
            assert(x.model().contains_key(k));
            lemma_entries_lookup(x.entries@, k);
            let j = choose|j: int| 0 <= j < x.entries@.len() && (#[trigger] x.entries@[j]).0@ == k;
            assert(y.model().contains_key(x.entries@[j].0@));
        }
        assert(x.model().dom().subset_of(y.model().dom()));
        vstd::set_lib::lemma_subset_equality(x.model().dom(), y.model().dom());
        assert(x.model() =~= y.model());
    }
    true
}

/// A deep copy: same model, independently owned.
pub fn deep_clone(v: &Val) -> (r: Val)
    requires
        v.wf(),
    ensures
        r.wf(),
        r.model() == v.model(),
    decreases *v,
{
    match v {
        Val::Int(n) => Val::Int(*n),
        Val::Str(s) => Val::Str(String::from_str(s.as_str())),
        Val::Table(t) => Val::Table(clone_table(t)),
    }
}

/// A deep copy of a table.
pub fn clone_table(t: &Table) -> (r: Table)
    requires
        t.wf(),
    ensures
        r.wf(),
        r.model() == t.model(),
    decreases *t,
{
    let n = t.entries.len();
    let mut out = Table::new();
    let mut i: usize = 0;
    while i < n
        invariant
            t.wf(),
            i <= n,
            n == t.entries@.len(),
            out.wf(),
            out.model() == entries_model(t.entries@.subrange(0, i as int)),
        decreases n - i,
    {
        proof {
            lemma_entries_wf_prefix(t.entries@, i as int + 1);
            lemma_entries_lookup(t.entries@, t.entries@[i as int].0@);
        }
        let k = String::from_str(t.entries[i].0.as_str());
        let w = deep_clone(&t.entries[i].1);
        out.insert(k, w);
        proof {
            assert(t.entries@.subrange(0, i as int + 1).drop_last() =~= t.entries@.subrange(
                0,
                i as int,
            ));
        }
        i = i + 1;
    }
    proof {
        assert(t.entries@.subrange(0, n as int) =~= t.entries@);
    }
    out
}

/// A prefix of a well-formed entry list is well-formed, and its entries are
/// well-formed values.
pub proof fn lemma_entries_wf_prefix(s: Seq<(String, Val)>, i: int)
    requires
        entries_wf(s),
        0 <= i <= s.len(),
    ensures
        entries_wf(s.subrange(0, i)),
        forall|j: int| 0 <= j < i ==> (#[trigger] s[j]).1.wf(),
    decreases s.len(),
{
    if s.len() > 0 {
        let d = s.drop_last();
        let ii = if i < s.len() { i } else { i - 1 };
        lemma_entries_wf_prefix(d, ii);
        assert(forall|j: int| 0 <= j < d.len() ==> d[j] == s[j]);
        if i < s.len() {
            assert(d.subrange(0, i) =~= s.subrange(0, i));
        } else {
            assert(s.subrange(0, i) =~= s);
        }
        assert forall|j: int| 0 <= j < i implies (#[trigger] s[j]).1.wf() by {
            if j < s.len() - 1 {
                assert(d[j].1.wf());
            } else {
                assert(s.last().1.wf());
            }
        }
    } else {
        assert(s.subrange(0, i) =~= s);
    }
}

} // verus!
