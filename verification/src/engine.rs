//! Instruction execution. `exec_spec` is the denotational semantics of one
//! instruction over the store model (root table plus scope chain);
//! `Instance::exec` implements it and is proved against it. Arithmetic is
//! 64-bit two's-complement; `div`/`mod` by zero is an error.

use vstd::prelude::*;
use crate::errors::Error;
use crate::value::{Val, ValModel, Table, render_spec, render, val_eq, deep_clone};
use crate::store::{
    Instance, Looked, m_get, m_del, m_set, split_path, split_str, seq_strs, scope_map, enter_path,
    exists_flag,
};
use crate::parse::{Get, GetModel, Op, OpModel, eval_get, pairs_model, pairs_wf};
use crate::num::{dec_digits, render_u64, push_char, is_digit, lemma_dec_digits_are_digits, lemma_dec_digits_injective};

verus! {

/// Reduction of an integer into 64-bit two's-complement range.
pub open spec fn wrap64(v: int) -> int {
    let m = v % 0x1_0000_0000_0000_0000;
    if m >= 0x8000_0000_0000_0000 {
        m - 0x1_0000_0000_0000_0000
    } else {
        m
    }
}

pub open spec fn abs_int(v: int) -> int {
    if v < 0 {
        -v
    } else {
        v
    }
}

/// Truncating signed division, wrapped (the one overflow case is
/// `i64::MIN / -1`).
pub open spec fn tdiv64(a: int, b: int) -> int {
    let q = abs_int(a) / abs_int(b);
    if (a < 0) != (b < 0) {
        wrap64(-q)
    } else {
        wrap64(q)
    }
}

/// Remainder of truncating division: its sign follows the dividend.
pub open spec fn tmod64(a: int, b: int) -> int {
    let r = abs_int(a) % abs_int(b);
    if a < 0 {
        -r
    } else {
        r
    }
}

pub open spec fn band64(a: int, b: int) -> int {
    ((a as i64) & (b as i64)) as int
}

pub open spec fn bor64(a: int, b: int) -> int {
    ((a as i64) | (b as i64)) as int
}

pub open spec fn bxor64(a: int, b: int) -> int {
    ((a as i64) ^ (b as i64)) as int
}

/// The table `chars` builds from the first `k` characters of `s`: decimal
/// keys `"0" .. "k-1"`, each a one-character string.
pub open spec fn chars_partial(s: Seq<char>, k: int) -> Map<Seq<char>, ValModel>
    decreases k,
{
    if k <= 0 {
        Map::empty()
    } else {
        chars_partial(s, k - 1).insert(dec_digits((k - 1) as nat), ValModel::Str(seq![s[k - 1]]))
    }
}

/// The whole `chars` table: one entry per character, plus `"len"`.
pub open spec fn chars_model(s: Seq<char>) -> Map<Seq<char>, ValModel> {
    chars_partial(s, s.len() as int).insert("len"@, ValModel::Int(wrap64(s.len() as int)))
}

/// What an instruction makes visible outside the store.
#[derive(Debug)]
pub enum Effect {
    /// Nothing.
    Quiet,
    /// Text for the output stream, unterminated.
    Out(String),
    /// A line for the output stream.
    OutLine(String),
    /// One line of input is needed; it will be stored under this variable
    /// path.
    Want(String),
}

/// The model of an effect.
pub enum EffModel {
    Quiet,
    Out(Seq<char>),
    OutLine(Seq<char>),
    Want(Seq<char>),
}

impl Effect {
    pub open spec fn model(self) -> EffModel {
        match self {
            Effect::Quiet => EffModel::Quiet,
            Effect::Out(s) => EffModel::Out(s@),
            Effect::OutLine(s) => EffModel::OutLine(s@),
            Effect::Want(s) => EffModel::Want(s@),
        }
    }
}

/// The store after one instruction, and its effect.
pub struct ExecRes {
    pub root: Map<Seq<char>, ValModel>,
    pub segs: Seq<Seq<char>>,
    pub eff: EffModel,
}

/// Resolves an operand against the scope, as the executable `Get::val` does.
pub open spec fn ev(
    m: Map<Seq<char>, ValModel>,
    segs: Seq<Seq<char>>,
    g: GetModel,
) -> Result<ValModel, Error> {
    match eval_get(scope_map(m, segs), g) {
        Looked::Found(v) => Ok(v),
        Looked::Absent => Err(Error::UndefinedSymbol),
        Looked::Blocked => Err(Error::NotATable),
    }
}

/// Writes `v` at the path named by the rendering of `targ`, relative to the
/// scope.
pub open spec fn wr(
    m: Map<Seq<char>, ValModel>,
    segs: Seq<Seq<char>>,
    targ: ValModel,
    v: ValModel,
) -> Result<Map<Seq<char>, ValModel>, Error> {
    match m_set(m, segs + split_path(render_spec(targ)), v) {
        Some(m2) => Ok(m2),
        None => Err(Error::NotATable),
    }
}

/// The `match` instruction: the first branch whose guard equals the selector
/// writes its result; no match writes nothing.
pub open spec fn match_spec(
    m: Map<Seq<char>, ValModel>,
    segs: Seq<Seq<char>>,
    var: GetModel,
    branches: Seq<(GetModel, GetModel)>,
    sv: ValModel,
) -> Result<Map<Seq<char>, ValModel>, Error>
    decreases branches.len(),
{
    if branches.len() == 0 {
        Ok(m)
    } else {
        match ev(m, segs, branches[0].0) {
            Err(e) => Err(e),
            Ok(bv) => if bv == sv {
                match ev(m, segs, branches[0].1) {
                    Err(e) => Err(e),
                    Ok(nv) => match ev(m, segs, var) {
                        Err(e) => Err(e),
                        Ok(vv) => wr(m, segs, vv, nv),
                    },
                }
            } else {
                match_spec(m, segs, var, branches.skip(1), sv)
            },
        }
    }
}

/// What the store looks like after a failing instruction: unchanged, except
/// that a failing `enter` keeps the scopes it had already pushed and the
/// tables it had already created (the interpreter halts there, but the state
/// is still pinned down).
pub open spec fn err_frame(
    m: Map<Seq<char>, ValModel>,
    segs: Seq<Seq<char>>,
    op: OpModel,
    m2: Map<Seq<char>, ValModel>,
    segs2: Seq<Seq<char>>,
) -> bool {
    match op {
        OpModel::Enter(g) => match ev(m, segs, g) {
            Err(_) => m2 == m && segs2 == segs,
            Ok(vv) => {
                let t = enter_path(m, segs, split_path(render_spec(vv)));
                m2 == t.0 && segs2 == t.1
            },
        },
        _ => m2 == m && segs2 == segs,
    }
}

/// The semantics of one non-`branch` instruction: the new root, the new
/// scope chain, and the visible effect, or the first error in evaluation
/// order.
pub open spec fn exec_spec(
    m: Map<Seq<char>, ValModel>,
    segs: Seq<Seq<char>>,
    op: OpModel,
) -> Result<ExecRes, Error> {
    match op {
        OpModel::Nop => Ok(ExecRes { root: m, segs, eff: EffModel::Quiet }),
        OpModel::SetVar(var, src) => match (ev(m, segs, var), ev(m, segs, src)) {
            (Err(e), _) => Err(e),
            (Ok(_), Err(e)) => Err(e),
            (Ok(vv), Ok(sv)) => match wr(m, segs, vv, sv) {
                Ok(m2) => Ok(ExecRes { root: m2, segs, eff: EffModel::Quiet }),
                Err(e) => Err(e),
            },
        },
        OpModel::GetVar(var, src) => match (ev(m, segs, var), ev(m, segs, src)) {
            (Err(e), _) => Err(e),
            (Ok(_), Err(e)) => Err(e),
            (Ok(vv), Ok(sv)) => match m_get(
                scope_map(m, segs),
                split_path(render_spec(sv)),
            ) {
                Looked::Absent => Err(Error::UndefinedSymbol),
                Looked::Blocked => Err(Error::NotATable),
                Looked::Found(w) => match wr(m, segs, vv, w) {
                    Ok(m2) => Ok(ExecRes { root: m2, segs, eff: EffModel::Quiet }),
                    Err(e) => Err(e),
                },
            },
        },
        OpModel::Del(var) => match ev(m, segs, var) {
            Err(e) => Err(e),
            Ok(vv) => match m_del(m, segs + split_path(render_spec(vv))) {
                Some(m2) => Ok(ExecRes { root: m2, segs, eff: EffModel::Quiet }),
                None => Err(Error::NotATable),
            },
        },
        OpModel::ExistsVar(var, sym) => match (ev(m, segs, var), ev(m, segs, sym)) {
            (Err(e), _) => Err(e),
            (Ok(_), Err(e)) => Err(e),
            (Ok(vv), Ok(sv)) => {
                let q = split_path(render_spec(sv));
                match wr(m, segs, vv, ValModel::Int(exists_flag(scope_map(m, segs), q))) {
                    Ok(m2) => Ok(ExecRes { root: m2, segs, eff: EffModel::Quiet }),
                    Err(e) => Err(e),
                }
            },
        },
        OpModel::Branch(_) => Err(Error::Parse),
        OpModel::Enter(g) => match ev(m, segs, g) {
            Err(e) => Err(e),
            Ok(vv) => {
                let (m2, segs2, ok) = enter_path(m, segs, split_path(render_spec(vv)));
                if ok {
                    Ok(ExecRes { root: m2, segs: segs2, eff: EffModel::Quiet })
                } else {
                    Err(Error::NotATable)
                }
            },
        },
        OpModel::Exit => Ok(
            ExecRes {
                root: m,
                segs: if segs.len() > 0 {
                    segs.drop_last()
                } else {
                    segs
                },
                eff: EffModel::Quiet,
            },
        ),
        OpModel::Match(var, src, branches) => match ev(m, segs, src) {
            Err(e) => Err(e),
            Ok(sv) => match match_spec(m, segs, var, branches, sv) {
                Ok(m2) => Ok(ExecRes { root: m2, segs, eff: EffModel::Quiet }),
                Err(e) => Err(e),
            },
        },
        OpModel::Print(g) => match ev(m, segs, g) {
            Err(e) => Err(e),
            Ok(vv) => Ok(ExecRes { root: m, segs, eff: EffModel::Out(render_spec(vv)) }),
        },
        OpModel::Println(g) => match ev(m, segs, g) {
            Err(e) => Err(e),
            Ok(vv) => Ok(ExecRes { root: m, segs, eff: EffModel::OutLine(render_spec(vv)) }),
        },
        OpModel::Inpln(var) => match ev(m, segs, var) {
            Err(e) => Err(e),
            Ok(vv) => Ok(ExecRes { root: m, segs, eff: EffModel::Want(render_spec(vv)) }),
        },
        OpModel::Concat(var, a, b) => match (ev(m, segs, var), ev(m, segs, a), ev(m, segs, b)) {
            (Err(e), _, _) => Err(e),
            (Ok(_), Err(e), _) => Err(e),
            (Ok(_), Ok(_), Err(e)) => Err(e),
            (Ok(vv), Ok(av), Ok(bv)) => match wr(
                m,
                segs,
                vv,
                ValModel::Str(render_spec(av) + render_spec(bv)),
            ) {
                Ok(m2) => Ok(ExecRes { root: m2, segs, eff: EffModel::Quiet }),
                Err(e) => Err(e),
            },
        },
        OpModel::Chars(var, srcs) => match (ev(m, segs, var), ev(m, segs, srcs)) {
            (Err(e), _) => Err(e),
            (Ok(_), Err(e)) => Err(e),
            (Ok(vv), Ok(sv)) => match wr(
                m,
                segs,
                vv,
                ValModel::Table(chars_model(render_spec(sv))),
            ) {
                Ok(m2) => Ok(ExecRes { root: m2, segs, eff: EffModel::Quiet }),
                Err(e) => Err(e),
            },
        },
        OpModel::Eq(var, a, b) => match (ev(m, segs, a), ev(m, segs, b)) {
            (Err(e), _) => Err(e),
            (Ok(_), Err(e)) => Err(e),
            (Ok(av), Ok(bv)) => match ev(m, segs, var) {
                Err(e) => Err(e),
                Ok(vv) => match wr(
                    m,
                    segs,
                    vv,
                    ValModel::Int(
                        if av == bv {
                            1
                        } else {
                            0
                        },
                    ),
                ) {
                    Ok(m2) => Ok(ExecRes { root: m2, segs, eff: EffModel::Quiet }),
                    Err(e) => Err(e),
                },
            },
        },
        OpModel::Gt(var, a, b) => binop_spec(m, segs, var, a, b, BinKind::Gt),
        OpModel::Add(var, a, b) => binop_spec(m, segs, var, a, b, BinKind::Add),
        OpModel::Sub(var, a, b) => binop_spec(m, segs, var, a, b, BinKind::Sub),
        OpModel::Mul(var, a, b) => binop_spec(m, segs, var, a, b, BinKind::Mul),
        OpModel::Div(var, a, b) => binop_spec(m, segs, var, a, b, BinKind::Div),
        OpModel::Mod(var, a, b) => binop_spec(m, segs, var, a, b, BinKind::Mod),
        OpModel::And(var, a, b) => binop_spec(m, segs, var, a, b, BinKind::And),
        OpModel::Or(var, a, b) => binop_spec(m, segs, var, a, b, BinKind::Or),
        OpModel::Xor(var, a, b) => binop_spec(m, segs, var, a, b, BinKind::Xor),
    }
}

/// The binary numeric instructions, distinguished by kind.
pub enum BinKind {
    Gt,
    Add,
    Sub,
    Mul,
    Div,
    Mod,
    And,
    Or,
    Xor,
}

/// The value a binary numeric instruction computes from two integers; both
/// operands are already known to be in `i64` range.
pub open spec fn binop_val(k: BinKind, a: int, b: int) -> int {
    match k {
        BinKind::Gt => if a > b {
            1
        } else {
            0
        },
        BinKind::Add => wrap64(a + b),
        BinKind::Sub => wrap64(a - b),
        BinKind::Mul => wrap64(a * b),
        BinKind::Div => tdiv64(a, b),
        BinKind::Mod => tmod64(a, b),
        BinKind::And => band64(a, b),
        BinKind::Or => bor64(a, b),
        BinKind::Xor => bxor64(a, b),
    }
}

pub open spec fn divides(k: BinKind) -> bool {
    k is Div || k is Mod
}

/// One binary numeric instruction: both operands must be integers; division
/// by zero is an error, discovered after the target operand resolves.
pub open spec fn binop_spec(
    m: Map<Seq<char>, ValModel>,
    segs: Seq<Seq<char>>,
    var: GetModel,
    a: GetModel,
    b: GetModel,
    k: BinKind,
) -> Result<ExecRes, Error> {
    match (ev(m, segs, a), ev(m, segs, b)) {
        (Err(e), _) => Err(e),
        (Ok(_), Err(e)) => Err(e),
        (Ok(av), Ok(bv)) => if !(av is Int) || !(bv is Int) {
            Err(Error::TypeMismatch)
        } else {
            match ev(m, segs, var) {
                Err(e) => Err(e),
                Ok(vv) => if divides(k) && av is Int && bv->Int_0 == 0 {
                    Err(Error::ArithmeticError)
                } else {
                    match wr(m, segs, vv, ValModel::Int(binop_val(k, av->Int_0, bv->Int_0))) {
                        Ok(m2) => Ok(ExecRes { root: m2, segs, eff: EffModel::Quiet }),
                        Err(e) => Err(e),
                    }
                },
            }
        },
    }
}


/// Wrapping into range is the identity on values already in range.
proof fn lemma_wrap64_id(v: int)
    requires
        -0x8000_0000_0000_0000 <= v < 0x8000_0000_0000_0000,
    ensures
        wrap64(v) == v,
{
    if v >= 0 {
        vstd::arithmetic::div_mod::lemma_small_mod(v as nat, 0x1_0000_0000_0000_0000nat);
    } else {
        vstd::arithmetic::div_mod::lemma_mod_multiples_vanish(
            1,
            v,
            0x1_0000_0000_0000_0000,
        );
        vstd::arithmetic::div_mod::lemma_small_mod(
            (v + 0x1_0000_0000_0000_0000) as nat,
            0x1_0000_0000_0000_0000nat,
        );
    }
}

/// Reduces an exact 128-bit quantity into `i64` two's-complement range.
fn wrap_i128(p: i128) -> (r: i64)
    ensures
        r as int == wrap64(p as int),
{
    let m = match p.checked_rem_euclid(18446744073709551616i128) {
        Some(x) => x,
        None => 0,
    };
    assert(m == (p as int) % 0x1_0000_0000_0000_0000);
    if m >= 9223372036854775808i128 {
        (m - 18446744073709551616i128) as i64
    } else {
        m as i64
    }
}

/// The magnitude of a signed quantity, as an unsigned one.
fn mag_u64(a: i64) -> (r: u64)
    ensures
        r as int == abs_int(a as int),
{
    if a < 0 {
        ((-(a + 1)) as u64) + 1
    } else {
        a as u64
    }
}

/// Computes one binary numeric operation, exactly as `binop_val` describes.
fn compute_bin(k: &BinKind, a: i64, b: i64) -> (r: i64)
    requires
        divides(*k) ==> b != 0,
    ensures
        r as int == binop_val(*k, a as int, b as int),
{
    match k {
        BinKind::Gt => if a > b {
            1
        } else {
            0
        },
        BinKind::Add => {
            let r = wrap_i128(a as i128 + b as i128);
            r
        },
        BinKind::Sub => {
            let r = wrap_i128(a as i128 - b as i128);
            r
        },
        BinKind::Mul => {
            proof {
                assert((a as int) * (b as int) <= 0x8000_0000_0000_0000 * 0x8000_0000_0000_0000
                    && (a as int) * (b as int) >= -(0x8000_0000_0000_0000
                    * 0x8000_0000_0000_0000)) by (nonlinear_arith)
                    requires
                        -0x8000_0000_0000_0000 <= (a as int) && (a as int) < 0x8000_0000_0000_0000,
                        -0x8000_0000_0000_0000 <= (b as int) && (b as int) < 0x8000_0000_0000_0000,
                ;
            }
            let r = wrap_i128((a as i128) * (b as i128));
            r
        },
        BinKind::Div => {
            let ma = mag_u64(a);
            let mb = mag_u64(b);
            let q = ma / mb;
            proof {
                vstd::arithmetic::div_mod::lemma_div_is_ordered_by_denominator(
                    ma as int,
                    1,
                    mb as int,
                );
                assert(q <= ma);
            }
            if (a < 0) != (b < 0) {
                proof {
                    lemma_wrap64_id(-(q as int));
                }
                if q == 9223372036854775808 {
                    i64::MIN
                } else {
                    -(q as i64)
                }
            } else {
                if q >= 9223372036854775808 {
                    proof {
                        assert(q == 0x8000_0000_0000_0000);
                        assert(wrap64(q as int) == i64::MIN as int);
                    }
                    i64::MIN
                } else {
                    proof {
                        lemma_wrap64_id(q as int);
                    }
                    q as i64
                }
            }
        },
        BinKind::Mod => {
            let ma = mag_u64(a);
            let mb = mag_u64(b);
            let r = ma % mb;
            assert(r < mb && mb <= 0x8000_0000_0000_0000);
            if a < 0 {
                -(r as i64)
            } else {
                r as i64
            }
        },
        BinKind::And => a & b,
        BinKind::Or => a | b,
        BinKind::Xor => a ^ b,
    }
}

/// Builds the `chars` table: decimal keys for each character, and `"len"`.
pub fn build_chars(s: &str) -> (r: Table)
    ensures
        r.wf(),
        r.model() == chars_model(s@),
{
    let n = s.unicode_len();
    let mut t = Table::new();
    let mut i: usize = 0;
    while i < n
        invariant
            i <= n,
            n == s@.len(),
            t.wf(),
            t.model() == chars_partial(s@, i as int),
        decreases n - i,
    {
        let key = render_u64(i as u64);
        let mut one = String::new();
        push_char(&mut one, s.get_char(i));
        proof {
            assert(one@ =~= seq![s@[i as int]]);
        }
        t.insert(key, Val::Str(one));
        i = i + 1;
    }
    let nu: u64 = n as u64;
    let len_i: i64 = if nu <= 9223372036854775807 {
        proof {
            lemma_wrap64_id(nu as int);
        }
        nu as i64
    } else {
        proof {
            vstd::arithmetic::div_mod::lemma_small_mod(nu as nat, 0x1_0000_0000_0000_0000nat);
        }
        (-((18446744073709551615u64 - nu) as i64)) - 1
    };
    assert(len_i as int == wrap64(n as int));
    t.insert(String::from_str("len"), Val::Int(len_i));
    t
}

impl Instance {
    /// Resolves an operand against the current scope and copies it out.
    fn eval_clone(&self, g: &Get) -> (r: Result<Val, Error>)
        requires
            self.inv(),
            g.wf(),
        ensures
            match r {
                Ok(v) => ev(self.root_model(), self.entered_model(), g.model()) == Ok::<
                    ValModel,
                    Error,
                >(v.model()) && v.wf(),
                Err(e) => ev(self.root_model(), self.entered_model(), g.model()) == Err::<
                    ValModel,
                    Error,
                >(e),
            },
    {
        let sc = self.table();
        match g.val(sc) {
            Ok(v) => Ok(deep_clone(v)),
            Err(e) => match e {
                Error::UndefinedSymbol => Err(Error::UndefinedSymbol),
                _ => Err(Error::NotATable),
            },
        }
    }

    /// Writes `v` at the path named by the rendering of `targ`.
    fn write_at(&mut self, targ: &Val, v: Val) -> (r: Result<(), Error>)
        requires
            old(self).inv(),
            targ.wf(),
            v.wf(),
        ensures
            final(self).inv(),
            final(self).entered_model() == old(self).entered_model(),
            match r {
                Ok(()) => wr(
                    old(self).root_model(),
                    old(self).entered_model(),
                    targ.model(),
                    v.model(),
                ) == Ok::<Map<Seq<char>, ValModel>, Error>(final(self).root_model()),
                Err(e) => wr(
                    old(self).root_model(),
                    old(self).entered_model(),
                    targ.model(),
                    v.model(),
                ) == Err::<Map<Seq<char>, ValModel>, Error>(e)
                    && final(self).root_model() == old(self).root_model(),
            },
    {
        let path = render(targ);
        match self.set(path.as_str(), v) {
            Ok(()) => Ok(()),
            Err(_) => Err(Error::NotATable),
        }
    }

    /// One binary numeric instruction.
    fn exec_bin(&mut self, var: &Get, a: &Get, b: &Get, k: &BinKind) -> (r: Result<Effect, Error>)
        requires
            old(self).inv(),
            var.wf(),
            a.wf(),
            b.wf(),
        ensures
            final(self).inv(),
            final(self).entered_model() == old(self).entered_model(),
            match r {
                Ok(eff) => binop_spec(
                    old(self).root_model(),
                    old(self).entered_model(),
                    var.model(),
                    a.model(),
                    b.model(),
                    *k,
                ) matches Ok(res) && final(self).root_model() == res.root && eff.model()
                    == res.eff,
                Err(e) => binop_spec(
                    old(self).root_model(),
                    old(self).entered_model(),
                    var.model(),
                    a.model(),
                    b.model(),
                    *k,
                ) == Err::<ExecRes, Error>(e) && final(self).root_model() == old(self).root_model()
                    && final(self).entered_model() == old(self).entered_model(),
            },
    {
        let av = match self.eval_clone(a) {
            Ok(v) => v,
            Err(e) => {
                return Err(e);
            },
        };
        let bv = match self.eval_clone(b) {
            Ok(v) => v,
            Err(e) => {
                return Err(e);
            },
        };
        let (ai, bi): (i64, i64) = match (&av, &bv) {
            (Val::Int(x), Val::Int(y)) => (*x, *y),
            _ => {
                return Err(Error::TypeMismatch);
            },
        };
        let vv = match self.eval_clone(var) {
            Ok(v) => v,
            Err(e) => {
                return Err(e);
            },
        };
        let dividing = match k {
            BinKind::Div => true,
            BinKind::Mod => true,
            _ => false,
        };
        if dividing && bi == 0 {
            return Err(Error::ArithmeticError);
        }
        let val = compute_bin(k, ai, bi);
        match self.write_at(&vv, Val::Int(val)) {
            Ok(()) => Ok(Effect::Quiet),
            Err(e) => Err(e),
        }
    }


    fn exec_set(&mut self, var: &Get, src: &Get) -> (r: Result<Effect, Error>)
        requires
            old(self).inv(),
            var.wf(),
            src.wf(),
        ensures
            final(self).inv(),
            match r {
                Ok(eff) => exec_spec(
                    old(self).root_model(),
                    old(self).entered_model(),
                    OpModel::SetVar(var.model(), src.model()),
                ) matches Ok(res) && final(self).root_model() == res.root
                    && final(self).entered_model() == res.segs && eff.model() == res.eff,
                Err(e) => exec_spec(
                    old(self).root_model(),
                    old(self).entered_model(),
                    OpModel::SetVar(var.model(), src.model()),
                ) == Err::<ExecRes, Error>(e) && final(self).root_model() == old(self).root_model()
                    && final(self).entered_model() == old(self).entered_model(),
            },
    {
                let vv = match self.eval_clone(var) {
                    Ok(v) => v,
                    Err(e) => {
                        return Err(e);
                    },
                };
                let sv = match self.eval_clone(src) {
                    Ok(v) => v,
                    Err(e) => {
                        return Err(e);
                    },
                };
                match self.write_at(&vv, sv) {
                    Ok(()) => Ok(Effect::Quiet),
                    Err(e) => Err(e),
                }
            }

    fn exec_read(&mut self, var: &Get, src: &Get) -> (r: Result<Effect, Error>)
        requires
            old(self).inv(),
            var.wf(),
            src.wf(),
        ensures
            final(self).inv(),
            match r {
                Ok(eff) => exec_spec(
                    old(self).root_model(),
                    old(self).entered_model(),
                    OpModel::GetVar(var.model(), src.model()),
                ) matches Ok(res) && final(self).root_model() == res.root
                    && final(self).entered_model() == res.segs && eff.model() == res.eff,
                Err(e) => exec_spec(
                    old(self).root_model(),
                    old(self).entered_model(),
                    OpModel::GetVar(var.model(), src.model()),
                ) == Err::<ExecRes, Error>(e) && final(self).root_model() == old(self).root_model()
                    && final(self).entered_model() == old(self).entered_model(),
            },
    {
                let vv = match self.eval_clone(var) {
                    Ok(v) => v,
                    Err(e) => {
                        return Err(e);
                    },
                };
                let sv = match self.eval_clone(src) {
                    Ok(v) => v,
                    Err(e) => {
                        return Err(e);
                    },
                };
                let name = render(&sv);
                let parts = split_str(name.as_str());
                proof {
                    assert(seq_strs(parts@).skip(0) =~= seq_strs(parts@));
                }
                let w = {
                    let sc = self.table();
                    match sc.get_path(&parts, 0) {
                        Ok(x) => deep_clone(x),
                        Err(e) => match e {
                            Error::UndefinedSymbol => {
                                return Err(Error::UndefinedSymbol);
                            },
                            _ => {
                                return Err(Error::NotATable);
                            },
                        },
                    }
                };
                match self.write_at(&vv, w) {
                    Ok(()) => Ok(Effect::Quiet),
                    Err(e) => Err(e),
                }
            }

    fn exec_del(&mut self, var: &Get) -> (r: Result<Effect, Error>)
        requires
            old(self).inv(),
            var.wf(),
        ensures
            final(self).inv(),
            match r {
                Ok(eff) => exec_spec(
                    old(self).root_model(),
                    old(self).entered_model(),
                    OpModel::Del(var.model()),
                ) matches Ok(res) && final(self).root_model() == res.root
                    && final(self).entered_model() == res.segs && eff.model() == res.eff,
                Err(e) => exec_spec(
                    old(self).root_model(),
                    old(self).entered_model(),
                    OpModel::Del(var.model()),
                ) == Err::<ExecRes, Error>(e) && final(self).root_model() == old(self).root_model()
                    && final(self).entered_model() == old(self).entered_model(),
            },
    {
                let vv = match self.eval_clone(var) {
                    Ok(v) => v,
                    Err(e) => {
                        return Err(e);
                    },
                };
                let path = render(&vv);
                match self.del(path.as_str()) {
                    Ok(()) => Ok(Effect::Quiet),
                    Err(_) => Err(Error::NotATable),
                }
            }

    fn exec_exists(&mut self, var: &Get, sym: &Get) -> (r: Result<Effect, Error>)
        requires
            old(self).inv(),
            var.wf(),
            sym.wf(),
        ensures
            final(self).inv(),
            match r {
                Ok(eff) => exec_spec(
                    old(self).root_model(),
                    old(self).entered_model(),
                    OpModel::ExistsVar(var.model(), sym.model()),
                ) matches Ok(res) && final(self).root_model() == res.root
                    && final(self).entered_model() == res.segs && eff.model() == res.eff,
                Err(e) => exec_spec(
                    old(self).root_model(),
                    old(self).entered_model(),
                    OpModel::ExistsVar(var.model(), sym.model()),
                ) == Err::<ExecRes, Error>(e) && final(self).root_model() == old(self).root_model()
                    && final(self).entered_model() == old(self).entered_model(),
            },
    {
                let vv = match self.eval_clone(var) {
                    Ok(v) => v,
                    Err(e) => {
                        return Err(e);
                    },
                };
                let sv = match self.eval_clone(sym) {
                    Ok(v) => v,
                    Err(e) => {
                        return Err(e);
                    },
                };
                let name = render(&sv);
                let parts = split_str(name.as_str());
                proof {
                    assert(seq_strs(parts@).skip(0) =~= seq_strs(parts@));
                }
                let flag: i64 = {
                    let sc = self.table();
                    match sc.get_path(&parts, 0) {
                        Ok(_) => 1,
                        Err(_) => 0,
                    }
                };
                match self.write_at(&vv, Val::Int(flag)) {
                    Ok(()) => Ok(Effect::Quiet),
                    Err(e) => Err(e),
                }
            }

    fn exec_enter(&mut self, g: &Get) -> (r: Result<Effect, Error>)
        requires
            old(self).inv(),
            g.wf(),
        ensures
            final(self).inv(),
            match r {
                Ok(eff) => exec_spec(
                    old(self).root_model(),
                    old(self).entered_model(),
                    OpModel::Enter(g.model()),
                ) matches Ok(res) && final(self).root_model() == res.root
                    && final(self).entered_model() == res.segs && eff.model() == res.eff,
                Err(e) => exec_spec(
                    old(self).root_model(),
                    old(self).entered_model(),
                    OpModel::Enter(g.model()),
                ) == Err::<ExecRes, Error>(e) && err_frame(
                    old(self).root_model(),
                    old(self).entered_model(),
                    OpModel::Enter(g.model()),
                    final(self).root_model(),
                    final(self).entered_model(),
                ),
            },
    {
                let vv = match self.eval_clone(g) {
                    Ok(v) => v,
                    Err(e) => {
                        return Err(e);
                    },
                };
                let path = render(&vv);
                match self.enter_table(path.as_str()) {
                    Ok(()) => Ok(Effect::Quiet),
                    Err(_) => Err(Error::NotATable),
                }
            }

    fn exec_match(&mut self, var: &Get, src: &Get, branches: &Vec<(Get, Get)>) -> (r: Result<Effect, Error>)
        requires
            old(self).inv(),
            var.wf(),
            src.wf(),
            pairs_wf(branches@),
        ensures
            final(self).inv(),
            match r {
                Ok(eff) => exec_spec(
                    old(self).root_model(),
                    old(self).entered_model(),
                    OpModel::Match(var.model(), src.model(), pairs_model(branches@)),
                ) matches Ok(res) && final(self).root_model() == res.root
                    && final(self).entered_model() == res.segs && eff.model() == res.eff,
                Err(e) => exec_spec(
                    old(self).root_model(),
                    old(self).entered_model(),
                    OpModel::Match(var.model(), src.model(), pairs_model(branches@)),
                ) == Err::<ExecRes, Error>(e) && final(self).root_model() == old(self).root_model()
                    && final(self).entered_model() == old(self).entered_model(),
            },
    {
                let sv = match self.eval_clone(src) {
                    Ok(v) => v,
                    Err(e) => {
                        return Err(e);
                    },
                };
                let nb = branches.len();
                let ghost m0 = self.root_model();
                let ghost segs0 = self.entered_model();
                let mut j: usize = 0;
                proof {
                    assert(pairs_model(branches@).skip(0) =~= pairs_model(branches@));
                }
                #[verifier::loop_isolation(false)]
                while j < nb
                    invariant
                        j <= nb,
                        self == old(self),
                        match_spec(m0, segs0, var.model(), pairs_model(branches@), sv.model())
                            == match_spec(
                            m0,
                            segs0,
                            var.model(),
                            pairs_model(branches@).skip(j as int),
                            sv.model(),
                        ),
                    decreases nb - j,
                {
                    assert(pairs_model(branches@).skip(j as int)[0] == (
                        branches@[j as int].0.model(),
                        branches@[j as int].1.model(),
                    ));
                    assert(branches@[j as int].0.wf() && branches@[j as int].1.wf());
                    let bv = match self.eval_clone(&branches[j].0) {
                        Ok(v) => v,
                        Err(e) => {
                            return Err(e);
                        },
                    };
                    if val_eq(&bv, &sv) {
                        let nv = match self.eval_clone(&branches[j].1) {
                            Ok(v) => v,
                            Err(e) => {
                                return Err(e);
                            },
                        };
                        let vv = match self.eval_clone(var) {
                            Ok(v) => v,
                            Err(e) => {
                                return Err(e);
                            },
                        };
                        return match self.write_at(&vv, nv) {
                            Ok(()) => Ok(Effect::Quiet),
                            Err(e) => Err(e),
                        };
                    }
                    proof {
                        assert(pairs_model(branches@).skip(j as int).skip(1) =~= pairs_model(
                            branches@,
                        ).skip(j as int + 1));
                    }
                    j = j + 1;
                }
                proof {
                    assert(pairs_model(branches@).skip(nb as int)
                        =~= Seq::<(GetModel, GetModel)>::empty());
                }
                Ok(Effect::Quiet)
            }

    fn exec_concat(&mut self, var: &Get, a: &Get, b: &Get) -> (r: Result<Effect, Error>)
        requires
            old(self).inv(),
            var.wf(),
            a.wf(),
            b.wf(),
        ensures
            final(self).inv(),
            match r {
                Ok(eff) => exec_spec(
                    old(self).root_model(),
                    old(self).entered_model(),
                    OpModel::Concat(var.model(), a.model(), b.model()),
                ) matches Ok(res) && final(self).root_model() == res.root
                    && final(self).entered_model() == res.segs && eff.model() == res.eff,
                Err(e) => exec_spec(
                    old(self).root_model(),
                    old(self).entered_model(),
                    OpModel::Concat(var.model(), a.model(), b.model()),
                ) == Err::<ExecRes, Error>(e) && final(self).root_model() == old(self).root_model()
                    && final(self).entered_model() == old(self).entered_model(),
            },
    {
                let vv = match self.eval_clone(var) {
                    Ok(v) => v,
                    Err(e) => {
                        return Err(e);
                    },
                };
                let av = match self.eval_clone(a) {
                    Ok(v) => v,
                    Err(e) => {
                        return Err(e);
                    },
                };
                let bv = match self.eval_clone(b) {
                    Ok(v) => v,
                    Err(e) => {
                        return Err(e);
                    },
                };
                let sa = render(&av);
                let sb = render(&bv);
                let joined = sa.concat(sb.as_str());
                match self.write_at(&vv, Val::Str(joined)) {
                    Ok(()) => Ok(Effect::Quiet),
                    Err(e) => Err(e),
                }
            }

    fn exec_chars(&mut self, var: &Get, srcs: &Get) -> (r: Result<Effect, Error>)
        requires
            old(self).inv(),
            var.wf(),
            srcs.wf(),
        ensures
            final(self).inv(),
            match r {
                Ok(eff) => exec_spec(
                    old(self).root_model(),
                    old(self).entered_model(),
                    OpModel::Chars(var.model(), srcs.model()),
                ) matches Ok(res) && final(self).root_model() == res.root
                    && final(self).entered_model() == res.segs && eff.model() == res.eff,
                Err(e) => exec_spec(
                    old(self).root_model(),
                    old(self).entered_model(),
                    OpModel::Chars(var.model(), srcs.model()),
                ) == Err::<ExecRes, Error>(e) && final(self).root_model() == old(self).root_model()
                    && final(self).entered_model() == old(self).entered_model(),
            },
    {
                let vv = match self.eval_clone(var) {
                    Ok(v) => v,
                    Err(e) => {
                        return Err(e);
                    },
                };
                let sv = match self.eval_clone(srcs) {
                    Ok(v) => v,
                    Err(e) => {
                        return Err(e);
                    },
                };
                let txt = render(&sv);
                let tb = build_chars(txt.as_str());
                match self.write_at(&vv, Val::Table(tb)) {
                    Ok(()) => Ok(Effect::Quiet),
                    Err(e) => Err(e),
                }
            }

    fn exec_eq(&mut self, var: &Get, a: &Get, b: &Get) -> (r: Result<Effect, Error>)
        requires
            old(self).inv(),
            var.wf(),
            a.wf(),
            b.wf(),
        ensures
            final(self).inv(),
            match r {
                Ok(eff) => exec_spec(
                    old(self).root_model(),
                    old(self).entered_model(),
                    OpModel::Eq(var.model(), a.model(), b.model()),
                ) matches Ok(res) && final(self).root_model() == res.root
                    && final(self).entered_model() == res.segs && eff.model() == res.eff,
                Err(e) => exec_spec(
                    old(self).root_model(),
                    old(self).entered_model(),
                    OpModel::Eq(var.model(), a.model(), b.model()),
                ) == Err::<ExecRes, Error>(e) && final(self).root_model() == old(self).root_model()
                    && final(self).entered_model() == old(self).entered_model(),
            },
    {
                let av = match self.eval_clone(a) {
                    Ok(v) => v,
                    Err(e) => {
                        return Err(e);
                    },
                };
                let bv = match self.eval_clone(b) {
                    Ok(v) => v,
                    Err(e) => {
                        return Err(e);
                    },
                };
                let same = val_eq(&av, &bv);
                let vv = match self.eval_clone(var) {
                    Ok(v) => v,
                    Err(e) => {
                        return Err(e);
                    },
                };
                let flag: i64 = if same {
                    1
                } else {
                    0
                };
                match self.write_at(&vv, Val::Int(flag)) {
                    Ok(()) => Ok(Effect::Quiet),
                    Err(e) => Err(e),
                }
            }

    /// Executes one non-`branch` instruction, exactly as `exec_spec`
    /// describes; on an error the interpreter halts, so only the error is
    /// specified.
    #[verifier::rlimit(100)]
    #[verifier::spinoff_prover]
    pub fn exec(&mut self, op: &Op) -> (r: Result<Effect, Error>)
        requires
            old(self).inv(),
            op.wf(),
            !((*op) is Branch),
        ensures
            final(self).inv(),
            match r {
                Ok(eff) => exec_spec(
                    old(self).root_model(),
                    old(self).entered_model(),
                    op.model(),
                ) matches Ok(res) && final(self).root_model() == res.root
                    && final(self).entered_model() == res.segs && eff.model() == res.eff,
                Err(e) => exec_spec(
                    old(self).root_model(),
                    old(self).entered_model(),
                    op.model(),
                ) == Err::<ExecRes, Error>(e) && err_frame(
                    old(self).root_model(),
                    old(self).entered_model(),
                    op.model(),
                    final(self).root_model(),
                    final(self).entered_model(),
                ),
            },
    {
        match op {
            Op::Nop => Ok(Effect::Quiet),
            Op::SetVar(var, src) => self.exec_set(var, src),
            Op::GetVar(var, src) => self.exec_read(var, src),
            Op::Del(var) => self.exec_del(var),
            Op::ExistsVar(var, sym) => self.exec_exists(var, sym),
            Op::Branch(_) => {
                proof {
                    assert(false);
                }
                Err(Error::Parse)
            },
            Op::Enter(g) => self.exec_enter(g),
            Op::Exit => {
                self.exit_table();
                Ok(Effect::Quiet)
            },
            Op::Match(var, src, branches) => self.exec_match(var, src, branches),
            Op::Print(g) => {
                let vv = match self.eval_clone(g) {
                    Ok(v) => v,
                    Err(e) => {
                        return Err(e);
                    },
                };
                Ok(Effect::Out(render(&vv)))
            },
            Op::Println(g) => {
                let vv = match self.eval_clone(g) {
                    Ok(v) => v,
                    Err(e) => {
                        return Err(e);
                    },
                };
                Ok(Effect::OutLine(render(&vv)))
            },
            Op::Inpln(var) => {
                let vv = match self.eval_clone(var) {
                    Ok(v) => v,
                    Err(e) => {
                        return Err(e);
                    },
                };
                Ok(Effect::Want(render(&vv)))
            },
            Op::Concat(var, a, b) => self.exec_concat(var, a, b),
            Op::Chars(var, srcs) => self.exec_chars(var, srcs),
            Op::Eq(var, a, b) => self.exec_eq(var, a, b),
            Op::Gt(var, a, b) => self.exec_bin(var, a, b, &BinKind::Gt),
            Op::Add(var, a, b) => self.exec_bin(var, a, b, &BinKind::Add),
            Op::Sub(var, a, b) => self.exec_bin(var, a, b, &BinKind::Sub),
            Op::Mul(var, a, b) => self.exec_bin(var, a, b, &BinKind::Mul),
            Op::Div(var, a, b) => self.exec_bin(var, a, b, &BinKind::Div),
            Op::Mod(var, a, b) => self.exec_bin(var, a, b, &BinKind::Mod),
            Op::And(var, a, b) => self.exec_bin(var, a, b, &BinKind::And),
            Op::Or(var, a, b) => self.exec_bin(var, a, b, &BinKind::Or),
            Op::Xor(var, a, b) => self.exec_bin(var, a, b, &BinKind::Xor),
        }
    }
}


proof fn lemma_chars_partial_lookup(s: Seq<char>, k: int, i: int)
    requires
        0 <= i < k <= s.len(),
    ensures
        chars_partial(s, k).contains_key(dec_digits(i as nat)),
        chars_partial(s, k)[dec_digits(i as nat)] == ValModel::Str(seq![s[i]]),
    decreases k,
{
    if i < k - 1 {
        lemma_chars_partial_lookup(s, k - 1, i);
        lemma_dec_digits_injective(i as nat, (k - 1) as nat);
    }
}

/// What the table built by `chars` holds: `"len"` is the character count,
/// and each decimal index holds the one-character string of that character.
pub proof fn lemma_chars_lookup(s: Seq<char>)
    requires
        s.len() < 0x8000_0000_0000_0000,
    ensures
        chars_model(s).contains_key("len"@),
        chars_model(s)["len"@] == ValModel::Int(s.len() as int),
        forall|i: int|
            0 <= i < s.len() ==> chars_model(s).contains_key(#[trigger] dec_digits(i as nat))
                && chars_model(s)[dec_digits(i as nat)] == ValModel::Str(seq![s[i]]),
{
    lemma_wrap64_id(s.len() as int);
    proof_strlit_len();
    assert forall|i: int|
        0 <= i < s.len() implies chars_model(s).contains_key(#[trigger] dec_digits(i as nat))
        && chars_model(s)[dec_digits(i as nat)] == ValModel::Str(seq![s[i]]) by {
        lemma_dec_digits_are_digits(i as nat);
        assert(dec_digits(i as nat) != "len"@) by {
            assert(is_digit(dec_digits(i as nat)[0]));
            assert(!is_digit('l')) by {
                assert('l' as u32 == 108);
            }
        }
        lemma_chars_partial_lookup(s, s.len() as int, i);
    }
}

proof fn proof_strlit_len()
    ensures
        "len"@.len() == 3,
        "len"@[0] == 'l',
{
    reveal_strlit("len");
}

} // verus!
