use vstd::prelude::*;

use crate::text::{
    chars_of, find, find_in, find_pair, find_pair_in, lemma_find, rfind, rfind_in, starts_with,
    starts_with_in, strip_end, strip_end_in, text_of, trim, trim_in,
};

verus! {

/// Error of the contract-language parser.
#[derive(Debug, PartialEq)]
pub enum RslError {
    /// A required token is missing.
    Expected(String),
    /// A declaration is malformed.
    ParseError(String),
}

/// A contract: its name, fields and functions.
#[derive(Debug, PartialEq)]
pub struct Contract {
    pub name: String,
    pub fields: Vec<Field>,
    pub functions: Vec<Function>,
}

/// A field declaration, `let name: type;`.
#[derive(Debug, PartialEq)]
pub struct Field {
    pub name: String,
    pub field_type: String,
}

/// A function declaration; its body is kept as text.
#[derive(Debug, PartialEq)]
pub struct Function {
    pub name: String,
    pub params: Vec<Param>,
    pub return_type: Option<String>,
    pub body: String,
}

/// A function parameter, `name: type`.
#[derive(Debug, PartialEq)]
pub struct Param {
    pub name: String,
    pub param_type: String,
}

pub struct ParamView {
    pub name: Seq<char>,
    pub param_type: Seq<char>,
}

pub struct FieldView {
    pub name: Seq<char>,
    pub field_type: Seq<char>,
}

pub struct FunctionView {
    pub name: Seq<char>,
    pub params: Seq<ParamView>,
    pub return_type: Option<Seq<char>>,
    pub body: Seq<char>,
}

pub struct ContractView {
    pub name: Seq<char>,
    pub fields: Seq<FieldView>,
    pub functions: Seq<FunctionView>,
}

impl View for Param {
    type V = ParamView;

    open spec fn view(&self) -> ParamView {
        ParamView { name: self.name@, param_type: self.param_type@ }
    }
}

impl View for Field {
    type V = FieldView;

    open spec fn view(&self) -> FieldView {
        FieldView { name: self.name@, field_type: self.field_type@ }
    }
}

pub open spec fn param_views(ps: Seq<Param>) -> Seq<ParamView> {
    ps.map_values(|p: Param| p@)
}

pub open spec fn field_views(fs: Seq<Field>) -> Seq<FieldView> {
    fs.map_values(|f: Field| f@)
}

pub open spec fn function_views(fs: Seq<Function>) -> Seq<FunctionView> {
    fs.map_values(|f: Function| f@)
}

impl View for Function {
    type V = FunctionView;

    open spec fn view(&self) -> FunctionView {
        FunctionView {
            name: self.name@,
            params: param_views(self.params@),
            return_type: match self.return_type {
                Some(t) => Some(t@),
                None => None,
            },
            body: self.body@,
        }
    }
}

impl View for Contract {
    type V = ContractView;

    open spec fn view(&self) -> ContractView {
        ContractView {
            name: self.name@,
            fields: field_views(self.fields@),
            functions: function_views(self.functions@),
        }
    }
}

/// The ways a source text can be rejected.
#[derive(Debug, Clone, Copy)]
pub enum RslFault {
    /// The text does not start with `contract`.
    NoKeyword,
    /// No `{` after the contract name.
    NoOpenBrace,
    /// No `}` closing the contract body.
    NoCloseBrace,
    /// A field line without exactly one `:`.
    FieldWithoutColon,
    /// A function line without `{`.
    FunctionWithoutBrace,
    /// A function header that is only the keyword.
    BadHeader,
    /// A function signature without `(`.
    BadSignature,
    /// A parameter without exactly one `:`.
    BadParameter,
}

/// `e` is the error that reports `f`.
pub open spec fn reports(e: RslError, f: RslFault) -> bool {
    match f {
        RslFault::NoKeyword => (e matches RslError::Expected(m) && m@ == "contract keyword"@),
        RslFault::NoOpenBrace => (e matches RslError::Expected(m) && m@ == "{"@),
        RslFault::NoCloseBrace => (e matches RslError::Expected(m) && m@ == "}"@),
        RslFault::FieldWithoutColon => (e matches RslError::ParseError(m) && m@
            == "Field missing ':'"@),
        RslFault::FunctionWithoutBrace => (e matches RslError::Expected(m) && m@ == "{"@),
        RslFault::BadHeader => (e matches RslError::ParseError(m) && m@
            == "Malformed function header"@),
        RslFault::BadSignature => (e matches RslError::ParseError(m) && m@
            == "Malformed function signature"@),
        RslFault::BadParameter => (e matches RslError::ParseError(m) && m@
            == "Malformed parameter"@),
    }
}

pub open spec fn kw_contract() -> Seq<char> {
    seq!['c', 'o', 'n', 't', 'r', 'a', 'c', 't']
}

pub open spec fn kw_let() -> Seq<char> {
    seq!['l', 'e', 't', ' ']
}

pub open spec fn kw_fn() -> Seq<char> {
    seq!['f', 'n', ' ']
}

/// A parameter `name: type`, with exactly one colon.
pub open spec fn param_of(p: Seq<char>) -> Option<ParamView> {
    match find(p, ':') {
        None => None,
        Some(i) => if find(p.skip(i + 1int), ':') is Some {
            None
        } else {
            Some(ParamView { name: trim(p.take(i as int)), param_type: trim(p.skip(i + 1int)) })
        },
    }
}

/// A comma-separated list of parameters.
pub open spec fn params_of(s: Seq<char>) -> Option<Seq<ParamView>>
    decreases s.len(),
{
    match find(s, ',') {
        None => match param_of(s) {
            Some(p) => Some(seq![p]),
            None => None,
        },
        Some(i) => {
            proof {
                lemma_find(s, ',');
            }
            match param_of(s.take(i as int)) {
                None => None,
                Some(p) => match params_of(s.skip(i + 1int)) {
                    None => None,
                    Some(rest) => Some(seq![p] + rest),
                },
            }
        },
    }
}

/// A field line `let name: type;`, already trimmed.
pub open spec fn field_of(t: Seq<char>) -> Result<FieldView, RslFault> {
    let f = t.skip(4);
    match find(f, ':') {
        None => Err(RslFault::FieldWithoutColon),
        Some(i) => if find(f.skip(i + 1int), ':') is Some {
            Err(RslFault::FieldWithoutColon)
        } else {
            Ok(
                FieldView {
                    name: trim(f.take(i as int)),
                    field_type: strip_end(trim(f.skip(i + 1int)), ';'),
                },
            )
        },
    }
}

/// The name and parameters of a signature `name(params)`.
pub open spec fn signature_of(sig: Seq<char>) -> Result<(Seq<char>, Seq<ParamView>), RslFault> {
    match find(sig, '(') {
        None => Err(RslFault::BadSignature),
        Some(q) => {
            let ps = strip_end(trim(sig.skip(q + 1int)), ')');
            if ps.len() == 0 {
                Ok((trim(sig.take(q as int)), Seq::empty()))
            } else {
                match params_of(ps) {
                    None => Err(RslFault::BadParameter),
                    Some(params) => Ok((trim(sig.take(q as int)), params)),
                }
            }
        },
    }
}

/// A function line `fn name(params)[: type] { body }`, already trimmed.
pub open spec fn function_of(t: Seq<char>) -> Result<FunctionView, RslFault> {
    match find(t, '{') {
        None => Err(RslFault::FunctionWithoutBrace),
        Some(i) => {
            let header = trim(t.take(i as int));
            let body = trim(strip_end(trim(t.skip(i + 1int)), '}'));
            if !starts_with(header, kw_fn()) {
                Err(RslFault::BadHeader)
            } else {
                let h = trim(header.skip(3));
                let sig = match find_pair(h, ')', ':') {
                    Some(p) => h.take(p + 1int),
                    None => h,
                };
                let return_type = match find_pair(h, ')', ':') {
                    Some(p) => Some(trim(h.skip(p + 2int))),
                    None => None,
                };
                match signature_of(sig) {
                    Err(f) => Err(f),
                    Ok((name, params)) => Ok(FunctionView { name, params, return_type, body }),
                }
            }
        },
    }
}

/// What one line of a contract body declares: no field or one, no function
/// or one. Lines that are neither field nor function declarations are
/// skipped.
pub open spec fn entry_of(line: Seq<char>) -> Result<(Seq<FieldView>, Seq<FunctionView>), RslFault> {
    let t = trim(line);
    if starts_with(t, kw_let()) {
        match field_of(t) {
            Ok(f) => Ok((seq![f], Seq::empty())),
            Err(e) => Err(e),
        }
    } else if starts_with(t, kw_fn()) {
        match function_of(t) {
            Ok(f) => Ok((Seq::empty(), seq![f])),
            Err(e) => Err(e),
        }
    } else {
        Ok((Seq::empty(), Seq::empty()))
    }
}

/// The declarations of a contract body, line by line; the first bad line
/// decides the error.
pub open spec fn lines_of(s: Seq<char>) -> Result<(Seq<FieldView>, Seq<FunctionView>), RslFault>
    decreases s.len(),
{
    match find(s, '\n') {
        None => entry_of(s),
        Some(i) => {
            proof {
                lemma_find(s, '\n');
            }
            match entry_of(s.take(i as int)) {
                Err(e) => Err(e),
                Ok((a, b)) => match lines_of(s.skip(i + 1int)) {
                    Err(e) => Err(e),
                    Ok((c, d)) => Ok((a + c, b + d)),
                },
            }
        },
    }
}

/// What parsing the source text `input` gives.
pub open spec fn contract_of(input: Seq<char>) -> Result<ContractView, RslFault> {
    let t = trim(input);
    if !starts_with(t, kw_contract()) {
        Err(RslFault::NoKeyword)
    } else {
        let rest = trim(t.skip(8));
        match find(rest, '{') {
            None => Err(RslFault::NoOpenBrace),
            Some(i) => {
                let after = rest.skip(i + 1int);
                match rfind(after, '}') {
                    None => Err(RslFault::NoCloseBrace),
                    Some(j) => match lines_of(after.take(j as int)) {
                        Err(e) => Err(e),
                        Ok((fields, functions)) => Ok(
                            ContractView { name: trim(rest.take(i as int)), fields, functions },
                        ),
                    },
                }
            },
        }
    }
}

/// `r` is the value or the fault that `s` describes.
pub open spec fn agrees<T: View>(r: Result<T, RslFault>, s: Result<T::V, RslFault>) -> bool {
    match (r, s) {
        (Ok(x), Ok(v)) => x@ == v,
        (Err(a), Err(b)) => a == b,
        _ => false,
    }
}

/// The text of `cs[lo..hi]`.
fn text_at(cs: &Vec<char>, lo: usize, hi: usize) -> (r: String)
    requires
        lo <= hi <= cs@.len(),
    ensures
        r@ == cs@.subrange(lo as int, hi as int),
{
    text_of(&cs.as_slice()[lo..hi])
}

proof fn lemma_split_at(cs: Seq<char>, lo: int, i: int, hi: int, k: int)
    requires
        0 <= lo <= i,
        i + k <= hi <= cs.len(),
        0 <= k,
    ensures
        cs.subrange(lo, hi).take(i - lo) == cs.subrange(lo, i),
        cs.subrange(lo, hi).skip(i - lo + k) == cs.subrange(i + k, hi),
{
    assert(cs.subrange(lo, hi).take(i - lo) =~= cs.subrange(lo, i));
    assert(cs.subrange(lo, hi).skip(i - lo + k) =~= cs.subrange(i + k, hi));
}

/// Reads the parameter `cs[lo..hi]`.
fn param_at(cs: &Vec<char>, lo: usize, hi: usize) -> (r: Option<Param>)
    requires
        lo <= hi <= cs@.len(),
    ensures
        match param_of(cs@.subrange(lo as int, hi as int)) {
            Some(v) => r matches Some(p) && p@ == v,
            None => r is None,
        },
{
    let i = match find_in(cs, lo, hi, ':') {
        Some(i) => i,
        None => {
            return None;
        },
    };
    proof {
        lemma_split_at(cs@, lo as int, i as int, hi as int, 1);
    }
    if find_in(cs, i + 1, hi, ':').is_some() {
        return None;
    }
    let (a, b) = trim_in(cs, lo, i);
    let (c, d) = trim_in(cs, i + 1, hi);
    Some(Param { name: text_at(cs, a, b), param_type: text_at(cs, c, d) })
}

/// Reads the comma-separated parameters `cs[lo..hi]`.
fn params_at(cs: &Vec<char>, lo: usize, hi: usize) -> (r: Option<Vec<Param>>)
    requires
        lo <= hi <= cs@.len(),
    ensures
        match params_of(cs@.subrange(lo as int, hi as int)) {
            Some(v) => r matches Some(ps) && param_views(ps@) == v,
            None => r is None,
        },
{
    let mut out: Vec<Param> = Vec::new();
    let mut pos = lo;
    proof {
        assert(param_views(out@) =~= Seq::<ParamView>::empty());
        if let Some(v) = params_of(cs@.subrange(lo as int, hi as int)) {
            assert(Seq::<ParamView>::empty() + v =~= v);
        }
    }
    loop
        invariant
            lo <= pos <= hi <= cs@.len(),
            params_of(cs@.subrange(lo as int, hi as int)) == match params_of(
                cs@.subrange(pos as int, hi as int),
            ) {
                Some(rest) => Some(param_views(out@) + rest),
                None => None,
            },
        decreases hi - pos,
    {
        let ghost done = param_views(out@);
        match find_in(cs, pos, hi, ',') {
            None => {
                let p = match param_at(cs, pos, hi) {
                    Some(p) => p,
                    None => {
                        return None;
                    },
                };
                out.push(p);
                proof {
                    assert(param_views(out@) =~= done + seq![p@]);
                }
                return Some(out);
            },
            Some(i) => {
                proof {
                    lemma_split_at(cs@, pos as int, i as int, hi as int, 1);
                }
                let p = match param_at(cs, pos, i) {
                    Some(p) => p,
                    None => {
                        return None;
                    },
                };
                out.push(p);
                proof {
                    assert(param_views(out@) =~= done + seq![p@]);
                    if let Some(rest) = params_of(cs@.subrange(i + 1, hi as int)) {
                        assert(done + (seq![p@] + rest) =~= param_views(out@) + rest);
                    }
                }
                pos = i + 1;
            },
        }
    }
}

/// Reads the field line `cs[lo..hi]`, already trimmed.
fn field_at(cs: &Vec<char>, lo: usize, hi: usize) -> (r: Result<Field, RslFault>)
    requires
        lo + 4 <= hi <= cs@.len(),
    ensures
        agrees(r, field_of(cs@.subrange(lo as int, hi as int))),
{
    let start = lo + 4;
    let ghost f = cs@.subrange(lo as int, hi as int).skip(4);
    proof {
        assert(f =~= cs@.subrange(start as int, hi as int));
    }
    let i = match find_in(cs, start, hi, ':') {
        Some(i) => i,
        None => {
            return Err(RslFault::FieldWithoutColon);
        },
    };
    proof {
        lemma_split_at(cs@, start as int, i as int, hi as int, 1);
    }
    if find_in(cs, i + 1, hi, ':').is_some() {
        return Err(RslFault::FieldWithoutColon);
    }
    let (a, b) = trim_in(cs, start, i);
    let (c, d) = trim_in(cs, i + 1, hi);
    let e = strip_end_in(cs, c, d, ';');
    Ok(Field { name: text_at(cs, a, b), field_type: text_at(cs, c, e) })
}

/// Reads the signature `cs[lo..hi]`.
fn signature_at(cs: &Vec<char>, lo: usize, hi: usize) -> (r: Result<(String, Vec<Param>), RslFault>)
    requires
        lo <= hi <= cs@.len(),
    ensures
        match (r, signature_of(cs@.subrange(lo as int, hi as int))) {
            (Ok((n, ps)), Ok((vn, vps))) => n@ == vn && param_views(ps@) == vps,
            (Err(a), Err(b)) => a == b,
            _ => false,
        },
{
    let q = match find_in(cs, lo, hi, '(') {
        Some(q) => q,
        None => {
            return Err(RslFault::BadSignature);
        },
    };
    proof {
        lemma_split_at(cs@, lo as int, q as int, hi as int, 1);
    }
    let (a, b) = trim_in(cs, q + 1, hi);
    let e = strip_end_in(cs, a, b, ')');
    let (n0, n1) = trim_in(cs, lo, q);
    let name = text_at(cs, n0, n1);
    if e == a {
        let params: Vec<Param> = Vec::new();
        proof {
            assert(param_views(params@) =~= Seq::<ParamView>::empty());
        }
        return Ok((name, params));
    }
    match params_at(cs, a, e) {
        Some(params) => Ok((name, params)),
        None => Err(RslFault::BadParameter),
    }
}

/// Reads the function line `cs[lo..hi]`, already trimmed.
fn function_at(cs: &Vec<char>, lo: usize, hi: usize) -> (r: Result<Function, RslFault>)
    requires
        lo <= hi <= cs@.len(),
    ensures
        agrees(r, function_of(cs@.subrange(lo as int, hi as int))),
{
    let i = match find_in(cs, lo, hi, '{') {
        Some(i) => i,
        None => {
            return Err(RslFault::FunctionWithoutBrace);
        },
    };
    proof {
        lemma_split_at(cs@, lo as int, i as int, hi as int, 1);
    }
    let (b0, b1) = trim_in(cs, i + 1, hi);
    let b2 = strip_end_in(cs, b0, b1, '}');
    let (b3, b4) = trim_in(cs, b0, b2);
    let body = text_at(cs, b3, b4);
    let (h0, h1) = trim_in(cs, lo, i);
    let kw: [char; 3] = ['f', 'n', ' '];
    proof {
        assert(kw@ =~= kw_fn());
    }
    if !starts_with_in(cs, h0, h1, &kw) {
        return Err(RslFault::BadHeader);
    }
    proof {
        assert(cs@.subrange(h0 as int, h1 as int).skip(3) =~= cs@.subrange(h0 + 3, h1 as int));
    }
    let (s0, s1) = trim_in(cs, h0 + 3, h1);
    let (sig_end, return_type) = match find_pair_in(cs, s0, s1, ')', ':') {
        Some(p) => {
            proof {
                lemma_split_at(cs@, s0 as int, p + 1, s1 as int, 1);
            }
            let (r0, r1) = trim_in(cs, p + 2, s1);
            (p + 1, Some(text_at(cs, r0, r1)))
        },
        None => {
            proof {
                assert(cs@.subrange(s0 as int, s1 as int).subrange(0, (s1 - s0) as int)
                    =~= cs@.subrange(s0 as int, s1 as int));
            }
            (s1, None)
        },
    };
    proof {
        if let Some(p) = find_pair(cs@.subrange(s0 as int, s1 as int), ')', ':') {
            assert(cs@.subrange(s0 as int, s1 as int).take(p + 1int) =~= cs@.subrange(
                s0 as int,
                sig_end as int,
            ));
        }
    }
    match signature_at(cs, s0, sig_end) {
        Ok((name, params)) => Ok(Function { name, params, return_type, body }),
        Err(f) => Err(f),
    }
}

/// The declarations found so far followed by those of the rest.
pub open spec fn after(
    fields: Seq<FieldView>,
    functions: Seq<FunctionView>,
    rest: Result<(Seq<FieldView>, Seq<FunctionView>), RslFault>,
) -> Result<(Seq<FieldView>, Seq<FunctionView>), RslFault> {
    match rest {
        Ok((c, d)) => Ok((fields + c, functions + d)),
        Err(e) => Err(e),
    }
}

/// Reads the declarations of the contract body `cs[lo..hi]`, line by line.
fn lines_at(cs: &Vec<char>, lo: usize, hi: usize) -> (r: Result<(Vec<Field>, Vec<Function>), RslFault>)
    requires
        lo <= hi <= cs@.len(),
    ensures
        match (r, lines_of(cs@.subrange(lo as int, hi as int))) {
            (Ok((fs, gs)), Ok((vf, vg))) => field_views(fs@) == vf && function_views(gs@) == vg,
            (Err(a), Err(b)) => a == b,
            _ => false,
        },
{
    let mut fields: Vec<Field> = Vec::new();
    let mut functions: Vec<Function> = Vec::new();
    let mut pos = lo;
    let kw_l: [char; 4] = ['l', 'e', 't', ' '];
    let kw_f: [char; 3] = ['f', 'n', ' '];
    proof {
        assert(kw_l@ =~= kw_let());
        assert(kw_f@ =~= kw_fn());
        assert(field_views(fields@) =~= Seq::<FieldView>::empty());
        assert(function_views(functions@) =~= Seq::<FunctionView>::empty());
        match lines_of(cs@.subrange(lo as int, hi as int)) {
            Ok((c, d)) => {
                assert(Seq::<FieldView>::empty() + c =~= c);
                assert(Seq::<FunctionView>::empty() + d =~= d);
            },
            Err(_) => {},
        }
    }
    loop
        invariant
            lo <= pos <= hi <= cs@.len(),
            kw_l@ == kw_let(),
            kw_f@ == kw_fn(),
            lines_of(cs@.subrange(lo as int, hi as int)) == after(
                field_views(fields@),
                function_views(functions@),
                lines_of(cs@.subrange(pos as int, hi as int)),
            ),
        decreases hi - pos,
    {
        let ghost vf = field_views(fields@);
        let ghost vg = function_views(functions@);
        let found = find_in(cs, pos, hi, '\n');
        let end = match found {
            Some(i) => i,
            None => hi,
        };
        let ghost line = cs@.subrange(pos as int, end as int);
        let ghost next = cs@.subrange(end + 1, hi as int);
        proof {
            if found is Some {
                lemma_split_at(cs@, pos as int, end as int, hi as int, 1);
            }
        }
        let (a, b) = trim_in(cs, pos, end);
        let ghost added: Result<(Seq<FieldView>, Seq<FunctionView>), RslFault> = entry_of(line);
        if starts_with_in(cs, a, b, &kw_l) {
            match field_at(cs, a, b) {
                Ok(f) => {
                    fields.push(f);
                    proof {
                        assert(field_views(fields@) =~= vf + seq![f@]);
                    }
                },
                Err(e) => {
                    return Err(e);
                },
            }
        } else if starts_with_in(cs, a, b, &kw_f) {
            match function_at(cs, a, b) {
                Ok(g) => {
                    functions.push(g);
                    proof {
                        assert(function_views(functions@) =~= vg + seq![g@]);
                    }
                },
                Err(e) => {
                    return Err(e);
                },
            }
        }
        proof {
            if let Ok((c, d)) = added {
                assert(field_views(fields@) =~= vf + c);
                assert(function_views(functions@) =~= vg + d);
                if let Ok((c2, d2)) = lines_of(next) {
                    assert(vf + (c + c2) =~= field_views(fields@) + c2);
                    assert(vg + (d + d2) =~= function_views(functions@) + d2);
                }
            }
        }
        if found.is_none() {
            proof {
                assert(line == cs@.subrange(pos as int, hi as int));
                if let Ok((c, d)) = added {
                    assert(field_views(fields@) + Seq::<FieldView>::empty() =~= field_views(fields@));
                }
            }
            return Ok((fields, functions));
        }
        pos = end + 1;
    }
}

/// The error that reports `f`.
fn error_of(f: RslFault) -> (r: RslError)
    ensures
        reports(r, f),
{
    match f {
        RslFault::NoKeyword => RslError::Expected("contract keyword".to_owned()),
        RslFault::NoOpenBrace => RslError::Expected("{".to_owned()),
        RslFault::NoCloseBrace => RslError::Expected("}".to_owned()),
        RslFault::FieldWithoutColon => RslError::ParseError("Field missing ':'".to_owned()),
        RslFault::FunctionWithoutBrace => RslError::Expected("{".to_owned()),
        RslFault::BadHeader => RslError::ParseError("Malformed function header".to_owned()),
        RslFault::BadSignature => RslError::ParseError("Malformed function signature".to_owned()),
        RslFault::BadParameter => RslError::ParseError("Malformed parameter".to_owned()),
    }
}

/// Parses a contract: `contract Name {`, then one declaration per line
/// (`let name: type;` or `fn name(params)[: type] { body }`; other lines are
/// skipped), then `}`.
pub fn parse_rsl(input: &str) -> (r: Result<Contract, RslError>)
    ensures
        match contract_of(input@) {
            Ok(v) => r matches Ok(c) && c@ == v,
            Err(f) => r matches Err(e) && reports(e, f),
        },
{
    let cs = chars_of(input);
    proof {
        assert(cs@.subrange(0, cs@.len() as int) =~= input@);
    }
    let (t0, t1) = trim_in(&cs, 0, cs.len());
    let kw: [char; 8] = ['c', 'o', 'n', 't', 'r', 'a', 'c', 't'];
    proof {
        assert(kw@ =~= kw_contract());
    }
    if !starts_with_in(&cs, t0, t1, &kw) {
        return Err(error_of(RslFault::NoKeyword));
    }
    proof {
        assert(cs@.subrange(t0 as int, t1 as int).skip(8) =~= cs@.subrange(t0 + 8, t1 as int));
    }
    let (r0, r1) = trim_in(&cs, t0 + 8, t1);
    let i = match find_in(&cs, r0, r1, '{') {
        Some(i) => i,
        None => {
            return Err(error_of(RslFault::NoOpenBrace));
        },
    };
    proof {
        lemma_split_at(cs@, r0 as int, i as int, r1 as int, 1);
    }
    let j = match rfind_in(&cs, i + 1, r1, '}') {
        Some(j) => j,
        None => {
            return Err(error_of(RslFault::NoCloseBrace));
        },
    };
    proof {
        assert(cs@.subrange(i + 1, r1 as int).take(j - (i + 1)) =~= cs@.subrange(i + 1, j as int));
    }
    match lines_at(&cs, i + 1, j) {
        Ok((fields, functions)) => {
            let (n0, n1) = trim_in(&cs, r0, i);
            Ok(Contract { name: text_at(&cs, n0, n1), fields, functions })
        },
        Err(f) => Err(error_of(f)),
    }
}

} // verus!
