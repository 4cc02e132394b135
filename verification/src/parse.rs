//! Instruction parsing: one commit message is shell-tokenized, the first
//! token selects the opcode, the remaining tokens are `Get` operands (a `$`
//! variable reference, a `#` integer literal, or a plain string).

use vstd::prelude::*;
use crate::errors::Error;
use crate::value::{Val, ValModel, Table, val_of_token};
use crate::store::{Looked, m_get, split_path, split_str, seq_strs};

verus! {

/// An operand: an inline value, or a variable reference by path.
pub enum Get {
    Val(Val),
    Var(String),
}

/// The mathematical shape of an operand.
pub enum GetModel {
    Lit(ValModel),
    Var(Seq<char>),
}

impl Get {
    pub open spec fn model(self) -> GetModel {
        match self {
            Get::Val(v) => GetModel::Lit(v.model()),
            Get::Var(s) => GetModel::Var(s@),
        }
    }

    pub open spec fn wf(self) -> bool {
        match self {
            Get::Val(v) => v.wf(),
            Get::Var(_) => true,
        }
    }
}

/// What resolving an operand against the current scope yields.
pub open spec fn eval_get(m: Map<Seq<char>, ValModel>, g: GetModel) -> Looked {
    match g {
        GetModel::Lit(v) => Looked::Found(v),
        GetModel::Var(s) => m_get(m, split_path(s)),
    }
}

/// The meaning of an operand token: `$path` is a variable, anything else is
/// a value literal.
pub open spec fn tok_get(t: Seq<char>) -> Option<GetModel> {
    if t.len() > 0 && t[0] == '$' {
        Some(GetModel::Var(t.skip(1)))
    } else {
        match val_of_token(t) {
            Some(v) => Some(GetModel::Lit(v)),
            None => None,
        }
    }
}

impl Get {
    /// Parses an operand token, exactly as `tok_get` describes.
    pub fn from_str(s: &str) -> (r: Result<Get, Error>)
        ensures
            match r {
                Ok(g) => tok_get(s@) == Some(g.model()) && g.wf(),
                Err(e) => tok_get(s@) is None && e is Parse,
            },
    {
        let len = s.unicode_len();
        if len > 0 && s.get_char(0) == '$' {
            let rest = s.substring_char(1, len);
            assert(rest@ == s@.skip(1));
            Ok(Get::Var(String::from_str(rest)))
        } else {
            match Val::from_str(s) {
                Ok(v) => Ok(Get::Val(v)),
                Err(e) => Err(e),
            }
        }
    }

    /// Resolves the operand against a scope table: a literal is itself, a
    /// variable is read along its slash-separated path.
    pub fn val<'a>(&'a self, table: &'a Table) -> (r: Result<&'a Val, Error>)
        requires
            self.wf(),
            table.wf(),
        ensures
            match r {
                Ok(v) => eval_get(table.model(), self.model()) == Looked::Found(v.model())
                    && v.wf(),
                Err(e) => (e is UndefinedSymbol && eval_get(table.model(), self.model())
                    is Absent) || (e is NotATable && eval_get(table.model(), self.model())
                    is Blocked),
            },
    {
        match self {
            Get::Val(v) => Ok(v),
            Get::Var(s) => {
                let parts = split_str(s.as_str());
                proof {
                    assert(seq_strs(parts@).skip(0) =~= seq_strs(parts@));
                }
                table.get_path(&parts, 0)
            },
        }
    }
}

/// One instruction with its typed operand slots.
pub enum Op {
    Nop,
    SetVar(Get, Get),
    GetVar(Get, Get),
    Del(Get),
    ExistsVar(Get, Get),
    Branch(Get),
    Enter(Get),
    Exit,
    Match(Get, Get, Vec<(Get, Get)>),
    Print(Get),
    Println(Get),
    Inpln(Get),
    Concat(Get, Get, Get),
    Chars(Get, Get),
    Eq(Get, Get, Get),
    Gt(Get, Get, Get),
    Add(Get, Get, Get),
    Sub(Get, Get, Get),
    Mul(Get, Get, Get),
    Div(Get, Get, Get),
    Mod(Get, Get, Get),
    And(Get, Get, Get),
    Or(Get, Get, Get),
    Xor(Get, Get, Get),
}

/// The mathematical shape of an instruction.
pub enum OpModel {
    Nop,
    SetVar(GetModel, GetModel),
    GetVar(GetModel, GetModel),
    Del(GetModel),
    ExistsVar(GetModel, GetModel),
    Branch(GetModel),
    Enter(GetModel),
    Exit,
    Match(GetModel, GetModel, Seq<(GetModel, GetModel)>),
    Print(GetModel),
    Println(GetModel),
    Inpln(GetModel),
    Concat(GetModel, GetModel, GetModel),
    Chars(GetModel, GetModel),
    Eq(GetModel, GetModel, GetModel),
    Gt(GetModel, GetModel, GetModel),
    Add(GetModel, GetModel, GetModel),
    Sub(GetModel, GetModel, GetModel),
    Mul(GetModel, GetModel, GetModel),
    Div(GetModel, GetModel, GetModel),
    Mod(GetModel, GetModel, GetModel),
    And(GetModel, GetModel, GetModel),
    Or(GetModel, GetModel, GetModel),
    Xor(GetModel, GetModel, GetModel),
}

/// The models of a branch list.
pub open spec fn pairs_model(s: Seq<(Get, Get)>) -> Seq<(GetModel, GetModel)> {
    s.map_values(|p: (Get, Get)| (p.0.model(), p.1.model()))
}

pub open spec fn pairs_wf(s: Seq<(Get, Get)>) -> bool {
    forall|i: int| 0 <= i < s.len() ==> (#[trigger] s[i]).0.wf() && s[i].1.wf()
}

impl Op {
    pub open spec fn model(self) -> OpModel {
        match self {
            Op::Nop => OpModel::Nop,
            Op::SetVar(a, b) => OpModel::SetVar(a.model(), b.model()),
            Op::GetVar(a, b) => OpModel::GetVar(a.model(), b.model()),
            Op::Del(a) => OpModel::Del(a.model()),
            Op::ExistsVar(a, b) => OpModel::ExistsVar(a.model(), b.model()),
            Op::Branch(a) => OpModel::Branch(a.model()),
            Op::Enter(a) => OpModel::Enter(a.model()),
            Op::Exit => OpModel::Exit,
            Op::Match(a, b, c) => OpModel::Match(a.model(), b.model(), pairs_model(c@)),
            Op::Print(a) => OpModel::Print(a.model()),
            Op::Println(a) => OpModel::Println(a.model()),
            Op::Inpln(a) => OpModel::Inpln(a.model()),
            Op::Concat(a, b, c) => OpModel::Concat(a.model(), b.model(), c.model()),
            Op::Chars(a, b) => OpModel::Chars(a.model(), b.model()),
            Op::Eq(a, b, c) => OpModel::Eq(a.model(), b.model(), c.model()),
            Op::Gt(a, b, c) => OpModel::Gt(a.model(), b.model(), c.model()),
            Op::Add(a, b, c) => OpModel::Add(a.model(), b.model(), c.model()),
            Op::Sub(a, b, c) => OpModel::Sub(a.model(), b.model(), c.model()),
            Op::Mul(a, b, c) => OpModel::Mul(a.model(), b.model(), c.model()),
            Op::Div(a, b, c) => OpModel::Div(a.model(), b.model(), c.model()),
            Op::Mod(a, b, c) => OpModel::Mod(a.model(), b.model(), c.model()),
            Op::And(a, b, c) => OpModel::And(a.model(), b.model(), c.model()),
            Op::Or(a, b, c) => OpModel::Or(a.model(), b.model(), c.model()),
            Op::Xor(a, b, c) => OpModel::Xor(a.model(), b.model(), c.model()),
        }
    }

    pub open spec fn wf(self) -> bool {
        match self {
            Op::Nop => true,
            Op::SetVar(a, b) => a.wf() && b.wf(),
            Op::GetVar(a, b) => a.wf() && b.wf(),
            Op::Del(a) => a.wf(),
            Op::ExistsVar(a, b) => a.wf() && b.wf(),
            Op::Branch(a) => a.wf(),
            Op::Enter(a) => a.wf(),
            Op::Exit => true,
            Op::Match(a, b, c) => a.wf() && b.wf() && pairs_wf(c@),
            Op::Print(a) => a.wf(),
            Op::Println(a) => a.wf(),
            Op::Inpln(a) => a.wf(),
            Op::Concat(a, b, c) => a.wf() && b.wf() && c.wf(),
            Op::Chars(a, b) => a.wf() && b.wf(),
            Op::Eq(a, b, c) => a.wf() && b.wf() && c.wf(),
            Op::Gt(a, b, c) => a.wf() && b.wf() && c.wf(),
            Op::Add(a, b, c) => a.wf() && b.wf() && c.wf(),
            Op::Sub(a, b, c) => a.wf() && b.wf() && c.wf(),
            Op::Mul(a, b, c) => a.wf() && b.wf() && c.wf(),
            Op::Div(a, b, c) => a.wf() && b.wf() && c.wf(),
            Op::Mod(a, b, c) => a.wf() && b.wf() && c.wf(),
            Op::And(a, b, c) => a.wf() && b.wf() && c.wf(),
            Op::Or(a, b, c) => a.wf() && b.wf() && c.wf(),
            Op::Xor(a, b, c) => a.wf() && b.wf() && c.wf(),
        }
    }
}

/// The branch pairs of `match`, read two tokens at a time from `i`; an
/// unpaired trailing token is a wrong arity, so a parse error.
pub open spec fn parse_pairs(toks: Seq<Seq<char>>, i: int) -> Option<Seq<(GetModel, GetModel)>>
    decreases toks.len() - i,
{
    if i >= toks.len() {
        Some(Seq::empty())
    } else if i + 1 >= toks.len() {
        None
    } else {
        match (tok_get(toks[i]), tok_get(toks[i + 1])) {
            (Some(a), Some(b)) => match parse_pairs(toks, i + 2) {
                Some(rest) => Some(seq![(a, b)] + rest),
                None => None,
            },
            _ => None,
        }
    }
}

/// One operand at position `i`.
pub open spec fn sarg(toks: Seq<Seq<char>>, i: int) -> Option<GetModel> {
    if i < toks.len() {
        tok_get(toks[i])
    } else {
        None
    }
}

/// The meaning of a token list: the first token is the opcode, the rest are
/// operands; a missing or malformed operand, or an unknown opcode, is a
/// parse error; extra tokens beyond an opcode's arity are ignored. An empty
/// list is `nop`.
pub open spec fn parse_tokens_spec(toks: Seq<Seq<char>>) -> Option<OpModel> {
    if toks.len() == 0 {
        Some(OpModel::Nop)
    } else {
        let op = toks[0];
        if op == "nop"@ {
            Some(OpModel::Nop)
        } else if op == "set"@ {
            match (sarg(toks, 1), sarg(toks, 2)) {
                (Some(a), Some(b)) => Some(OpModel::SetVar(a, b)),
                _ => None,
            }
        } else if op == "get"@ {
            match (sarg(toks, 1), sarg(toks, 2)) {
                (Some(a), Some(b)) => Some(OpModel::GetVar(a, b)),
                _ => None,
            }
        } else if op == "del"@ {
            match sarg(toks, 1) {
                Some(a) => Some(OpModel::Del(a)),
                _ => None,
            }
        } else if op == "exists"@ {
            match (sarg(toks, 1), sarg(toks, 2)) {
                (Some(a), Some(b)) => Some(OpModel::ExistsVar(a, b)),
                _ => None,
            }
        } else if op == "branch"@ {
            match sarg(toks, 1) {
                Some(a) => Some(OpModel::Branch(a)),
                _ => None,
            }
        } else if op == "enter"@ {
            match sarg(toks, 1) {
                Some(a) => Some(OpModel::Enter(a)),
                _ => None,
            }
        } else if op == "exit"@ {
            Some(OpModel::Exit)
        } else if op == "match"@ {
            match (sarg(toks, 1), sarg(toks, 2)) {
                (Some(a), Some(b)) => match parse_pairs(toks, 3) {
                    Some(ps) => Some(OpModel::Match(a, b, ps)),
                    None => None,
                },
                _ => None,
            }
        } else if op == "print"@ {
            match sarg(toks, 1) {
                Some(a) => Some(OpModel::Print(a)),
                _ => None,
            }
        } else if op == "println"@ {
            match sarg(toks, 1) {
                Some(a) => Some(OpModel::Println(a)),
                _ => None,
            }
        } else if op == "inpln"@ {
            match sarg(toks, 1) {
                Some(a) => Some(OpModel::Inpln(a)),
                _ => None,
            }
        } else if op == "concat"@ {
            match (sarg(toks, 1), sarg(toks, 2), sarg(toks, 3)) {
                (Some(a), Some(b), Some(c)) => Some(OpModel::Concat(a, b, c)),
                _ => None,
            }
        } else if op == "chars"@ {
            match (sarg(toks, 1), sarg(toks, 2)) {
                (Some(a), Some(b)) => Some(OpModel::Chars(a, b)),
                _ => None,
            }
        } else if op == "eq"@ {
            match (sarg(toks, 1), sarg(toks, 2), sarg(toks, 3)) {
                (Some(a), Some(b), Some(c)) => Some(OpModel::Eq(a, b, c)),
                _ => None,
            }
        } else if op == "gt"@ {
            match (sarg(toks, 1), sarg(toks, 2), sarg(toks, 3)) {
                (Some(a), Some(b), Some(c)) => Some(OpModel::Gt(a, b, c)),
                _ => None,
            }
        } else if op == "add"@ {
            match (sarg(toks, 1), sarg(toks, 2), sarg(toks, 3)) {
                (Some(a), Some(b), Some(c)) => Some(OpModel::Add(a, b, c)),
                _ => None,
            }
        } else if op == "sub"@ {
            match (sarg(toks, 1), sarg(toks, 2), sarg(toks, 3)) {
                (Some(a), Some(b), Some(c)) => Some(OpModel::Sub(a, b, c)),
                _ => None,
            }
        } else if op == "mul"@ {
            match (sarg(toks, 1), sarg(toks, 2), sarg(toks, 3)) {
                (Some(a), Some(b), Some(c)) => Some(OpModel::Mul(a, b, c)),
                _ => None,
            }
        } else if op == "div"@ {
            match (sarg(toks, 1), sarg(toks, 2), sarg(toks, 3)) {
                (Some(a), Some(b), Some(c)) => Some(OpModel::Div(a, b, c)),
                _ => None,
            }
        } else if op == "mod"@ {
            match (sarg(toks, 1), sarg(toks, 2), sarg(toks, 3)) {
                (Some(a), Some(b), Some(c)) => Some(OpModel::Mod(a, b, c)),
                _ => None,
            }
        } else if op == "and"@ {
            match (sarg(toks, 1), sarg(toks, 2), sarg(toks, 3)) {
                (Some(a), Some(b), Some(c)) => Some(OpModel::And(a, b, c)),
                _ => None,
            }
        } else if op == "or"@ {
            match (sarg(toks, 1), sarg(toks, 2), sarg(toks, 3)) {
                (Some(a), Some(b), Some(c)) => Some(OpModel::Or(a, b, c)),
                _ => None,
            }
        } else if op == "xor"@ {
            match (sarg(toks, 1), sarg(toks, 2), sarg(toks, 3)) {
                (Some(a), Some(b), Some(c)) => Some(OpModel::Xor(a, b, c)),
                _ => None,
            }
        } else {
            None
        }
    }
}

/// Relies on `str`'s `PartialEq`: character-for-character equality.
#[verifier::external_body]
fn str_eq(a: &str, b: &str) -> (r: bool)
    ensures
        r == (a@ == b@),
{
    a == b
}

/// What shellwords makes of one line; named, because the exact tokenization
/// (quotes, escapes) is not restated here.
pub uninterp spec fn shell_tokens(s: Seq<char>) -> Option<Seq<Seq<char>>>;

/// Relies on `shellwords::split`: POSIX-shell-style tokenization of one line
/// (single quotes literal, double quotes with backslash escapes); mismatched
/// quotes are the one error. The result depends on the input characters
/// alone.
#[verifier::external_body]
fn split_words(s: &str) -> (r: Option<Vec<String>>)
    ensures
        match r {
            Some(v) => shell_tokens(s@) == Some(seq_strs(v@)),
            None => shell_tokens(s@) is None,
        },
{
    match shellwords::split(s) {
        Ok(v) => Some(v),
        Err(_) => None,
    }
}

/// One operand from the token at `i`.
fn get_at(toks: &Vec<String>, i: usize) -> (r: Result<Get, Error>)
    ensures
        match r {
            Ok(g) => sarg(seq_strs(toks@), i as int) == Some(g.model()) && g.wf(),
            Err(e) => sarg(seq_strs(toks@), i as int) is None && e is Parse,
        },
{
    if i < toks.len() {
        Get::from_str(toks[i].as_str())
    } else {
        Err(Error::Parse)
    }
}

impl Op {
    /// Parses an instruction from its token list, exactly as
    /// `parse_tokens_spec` describes.
    pub fn from_tokens(toks: &Vec<String>) -> (r: Result<Op, Error>)
        ensures
            match r {
                Ok(op) => parse_tokens_spec(seq_strs(toks@)) == Some(op.model()) && op.wf(),
                Err(e) => parse_tokens_spec(seq_strs(toks@)) is None && e is Parse,
            },
    {
        let ghost ts = seq_strs(toks@);
        let n = toks.len();
        if n == 0 {
            return Ok(Op::Nop);
        }
        let op = toks[0].as_str();
        assert(op@ == ts[0]);
        if str_eq(op, "nop") {
            Ok(Op::Nop)
        } else if str_eq(op, "set") {
            let a = match get_at(toks, 1) { Ok(g) => g, Err(_) => { return Err(Error::Parse) } };
            let b = match get_at(toks, 2) { Ok(g) => g, Err(_) => { return Err(Error::Parse) } };
            Ok(Op::SetVar(a, b))
        } else if str_eq(op, "get") {
            let a = match get_at(toks, 1) { Ok(g) => g, Err(_) => { return Err(Error::Parse) } };
            let b = match get_at(toks, 2) { Ok(g) => g, Err(_) => { return Err(Error::Parse) } };
            Ok(Op::GetVar(a, b))
        } else if str_eq(op, "del") {
            let a = match get_at(toks, 1) { Ok(g) => g, Err(_) => { return Err(Error::Parse) } };
            Ok(Op::Del(a))
        } else if str_eq(op, "exists") {
            let a = match get_at(toks, 1) { Ok(g) => g, Err(_) => { return Err(Error::Parse) } };
            let b = match get_at(toks, 2) { Ok(g) => g, Err(_) => { return Err(Error::Parse) } };
            Ok(Op::ExistsVar(a, b))
        } else if str_eq(op, "branch") {
            let a = match get_at(toks, 1) { Ok(g) => g, Err(_) => { return Err(Error::Parse) } };
            Ok(Op::Branch(a))
        } else if str_eq(op, "enter") {
            let a = match get_at(toks, 1) { Ok(g) => g, Err(_) => { return Err(Error::Parse) } };
            Ok(Op::Enter(a))
        } else if str_eq(op, "exit") {
            Ok(Op::Exit)
        } else if str_eq(op, "match") {
            let a = match get_at(toks, 1) { Ok(g) => g, Err(_) => { return Err(Error::Parse) } };
            let b = match get_at(toks, 2) { Ok(g) => g, Err(_) => { return Err(Error::Parse) } };
            let mut branches: Vec<(Get, Get)> = Vec::new();
            let mut i: usize = 3;
            assert(n >= 3);
            #[verifier::loop_isolation(false)]
            while i < n - 1
                invariant
                    3 <= i,
                    3 <= n,
                    n == toks@.len(),
                    ts == seq_strs(toks@),
                    ts[0] == "match"@,
                    sarg(ts, 1) == Some(a.model()),
                    sarg(ts, 2) == Some(b.model()),
                    a.wf(),
                    b.wf(),
                    pairs_wf(branches@),
                    parse_pairs(ts, 3) == (match parse_pairs(ts, i as int) {
                        Some(rest) => Some(pairs_model(branches@) + rest),
                        None => None::<Seq<(GetModel, GetModel)>>,
                    }),
                decreases n - i,
            {
                let pa = match get_at(toks, i) {
                    Ok(g) => g,
                    Err(_) => { return Err(Error::Parse) },
                };
                let pb = match get_at(toks, i + 1) {
                    Ok(g) => g,
                    Err(_) => { return Err(Error::Parse) },
                };
                let ghost pre = branches@;
                branches.push((pa, pb));
                proof {
                    assert(pairs_model(branches@) =~= pairs_model(pre) + seq![
                        (pa.model(), pb.model()),
                    ]);
                    match parse_pairs(ts, i as int + 2) {
                        Some(rest) => {
                            assert(pairs_model(pre) + (seq![(pa.model(), pb.model())] + rest)
                                =~= pairs_model(branches@) + rest);
                        },
                        None => {},
                    }
                }
                i = i + 2;
            }
            if i < n {
                return Err(Error::Parse);
            }
            proof {
                assert(parse_pairs(ts, i as int) == Some(Seq::<(GetModel, GetModel)>::empty()));
                assert(pairs_model(branches@) + Seq::<(GetModel, GetModel)>::empty()
                    =~= pairs_model(branches@));
            }
            Ok(Op::Match(a, b, branches))
        } else if str_eq(op, "print") {
            let a = match get_at(toks, 1) { Ok(g) => g, Err(_) => { return Err(Error::Parse) } };
            Ok(Op::Print(a))
        } else if str_eq(op, "println") {
            let a = match get_at(toks, 1) { Ok(g) => g, Err(_) => { return Err(Error::Parse) } };
            Ok(Op::Println(a))
        } else if str_eq(op, "inpln") {
            let a = match get_at(toks, 1) { Ok(g) => g, Err(_) => { return Err(Error::Parse) } };
            Ok(Op::Inpln(a))
        } else if str_eq(op, "concat") {
            let a = match get_at(toks, 1) { Ok(g) => g, Err(_) => { return Err(Error::Parse) } };
            let b = match get_at(toks, 2) { Ok(g) => g, Err(_) => { return Err(Error::Parse) } };
            let c = match get_at(toks, 3) { Ok(g) => g, Err(_) => { return Err(Error::Parse) } };
            Ok(Op::Concat(a, b, c))
        } else if str_eq(op, "chars") {
            let a = match get_at(toks, 1) { Ok(g) => g, Err(_) => { return Err(Error::Parse) } };
            let b = match get_at(toks, 2) { Ok(g) => g, Err(_) => { return Err(Error::Parse) } };
            Ok(Op::Chars(a, b))
        } else if str_eq(op, "eq") {
            let a = match get_at(toks, 1) { Ok(g) => g, Err(_) => { return Err(Error::Parse) } };
            let b = match get_at(toks, 2) { Ok(g) => g, Err(_) => { return Err(Error::Parse) } };
            let c = match get_at(toks, 3) { Ok(g) => g, Err(_) => { return Err(Error::Parse) } };
            Ok(Op::Eq(a, b, c))
        } else if str_eq(op, "gt") {
            let a = match get_at(toks, 1) { Ok(g) => g, Err(_) => { return Err(Error::Parse) } };
            let b = match get_at(toks, 2) { Ok(g) => g, Err(_) => { return Err(Error::Parse) } };
            let c = match get_at(toks, 3) { Ok(g) => g, Err(_) => { return Err(Error::Parse) } };
            Ok(Op::Gt(a, b, c))
        } else if str_eq(op, "add") {
            let a = match get_at(toks, 1) { Ok(g) => g, Err(_) => { return Err(Error::Parse) } };
            let b = match get_at(toks, 2) { Ok(g) => g, Err(_) => { return Err(Error::Parse) } };
            let c = match get_at(toks, 3) { Ok(g) => g, Err(_) => { return Err(Error::Parse) } };
            Ok(Op::Add(a, b, c))
        } else if str_eq(op, "sub") {
            let a = match get_at(toks, 1) { Ok(g) => g, Err(_) => { return Err(Error::Parse) } };
            let b = match get_at(toks, 2) { Ok(g) => g, Err(_) => { return Err(Error::Parse) } };
            let c = match get_at(toks, 3) { Ok(g) => g, Err(_) => { return Err(Error::Parse) } };
            Ok(Op::Sub(a, b, c))
        } else if str_eq(op, "mul") {
            let a = match get_at(toks, 1) { Ok(g) => g, Err(_) => { return Err(Error::Parse) } };
            let b = match get_at(toks, 2) { Ok(g) => g, Err(_) => { return Err(Error::Parse) } };
            let c = match get_at(toks, 3) { Ok(g) => g, Err(_) => { return Err(Error::Parse) } };
            Ok(Op::Mul(a, b, c))
        } else if str_eq(op, "div") {
            let a = match get_at(toks, 1) { Ok(g) => g, Err(_) => { return Err(Error::Parse) } };
            let b = match get_at(toks, 2) { Ok(g) => g, Err(_) => { return Err(Error::Parse) } };
            let c = match get_at(toks, 3) { Ok(g) => g, Err(_) => { return Err(Error::Parse) } };
            Ok(Op::Div(a, b, c))
        } else if str_eq(op, "mod") {
            let a = match get_at(toks, 1) { Ok(g) => g, Err(_) => { return Err(Error::Parse) } };
            let b = match get_at(toks, 2) { Ok(g) => g, Err(_) => { return Err(Error::Parse) } };
            let c = match get_at(toks, 3) { Ok(g) => g, Err(_) => { return Err(Error::Parse) } };
            Ok(Op::Mod(a, b, c))
        } else if str_eq(op, "and") {
            let a = match get_at(toks, 1) { Ok(g) => g, Err(_) => { return Err(Error::Parse) } };
            let b = match get_at(toks, 2) { Ok(g) => g, Err(_) => { return Err(Error::Parse) } };
            let c = match get_at(toks, 3) { Ok(g) => g, Err(_) => { return Err(Error::Parse) } };
            Ok(Op::And(a, b, c))
        } else if str_eq(op, "or") {
            let a = match get_at(toks, 1) { Ok(g) => g, Err(_) => { return Err(Error::Parse) } };
            let b = match get_at(toks, 2) { Ok(g) => g, Err(_) => { return Err(Error::Parse) } };
            let c = match get_at(toks, 3) { Ok(g) => g, Err(_) => { return Err(Error::Parse) } };
            Ok(Op::Or(a, b, c))
        } else if str_eq(op, "xor") {
            let a = match get_at(toks, 1) { Ok(g) => g, Err(_) => { return Err(Error::Parse) } };
            let b = match get_at(toks, 2) { Ok(g) => g, Err(_) => { return Err(Error::Parse) } };
            let c = match get_at(toks, 3) { Ok(g) => g, Err(_) => { return Err(Error::Parse) } };
            Ok(Op::Xor(a, b, c))
        } else {
            Err(Error::Parse)
        }
    }

    /// Parses one commit message: shell-tokenize, then read the opcode and
    /// its operands. The parsed shape is pinned by `shell_tokens` and
    /// `parse_tokens_spec`.
    pub fn from_str(s: &str) -> (r: Result<Op, Error>)
        ensures
            match shell_tokens(s@) {
                None => r matches Err(e) && e is Parse,
                Some(toks) => match r {
                    Ok(op) => parse_tokens_spec(toks) == Some(op.model()) && op.wf(),
                    Err(e) => parse_tokens_spec(toks) is None && e is Parse,
                },
            },
    {
        match split_words(s) {
            None => Err(Error::Parse),
            Some(toks) => Op::from_tokens(&toks),
        }
    }
}

} // verus!
