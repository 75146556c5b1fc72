//! The syntax tree of a program, and how definitions are recognised in it.

use crate::compiler::common::witness;
use crate::compiler::node::Kind;
use crate::compiler::types::Type;
use crate::errors::Error;
use crate::integer::Integer;
use std::rc::Rc;
use vstd::prelude::*;
use vstd::string::*;

verus! {

/// A whole source: its top-level forms, in order.
pub struct Ast {
    pub exprs: Vec<AstNode>,
}

/// A form of the source, with the text it was read from and the line and
/// column where that text starts.
pub struct AstNode {
    pub class: Token,
    pub src: String,
    pub lc: (usize, usize),
}

/// What a form is.
pub enum Token {
    /// An integer literal.
    Value(Integer),
    /// A name.
    Symbol(String),
    /// A keyword, such as `:guard`.
    Keyword(String),
    /// A parenthesised list of forms.
    List(Vec<AstNode>),
    /// A set of indices.
    Range(Vec<usize>),
    /// A type annotation.
    Type(Type),
    /// The start of a module.
    DefModule(String),
    /// Named constants.
    DefConsts(Vec<(String, Integer)>),
    /// A declaration of columns, one form for each.
    DefColumns(Vec<AstNode>),
    /// The declaration of a column.
    DefColumn(String, Type, Kind<AstNode>),
    /// The declaration of an array column over a set of indices.
    DefArrayColumn(String, Vec<usize>, Type),
    /// The declaration of columns (first) that hold the rows of others
    /// (second), sorted.
    DefPermutation(Vec<AstNode>, Vec<AstNode>),
    /// A named lookup: the rows of the second list of expressions must occur
    /// among the rows of the first.
    DefPlookup(String, Vec<AstNode>, Vec<AstNode>),
    /// An expression whose values must lie below a bound.
    DefInrange(Box<AstNode>, usize),
    /// A named constraint, the rows it holds on where they are given, and
    /// the expression that must vanish.
    DefConstraint(String, Option<Vec<isize>>, Box<AstNode>),
    /// The definition of a function: its name, its parameters, its body.
    Defun(String, Vec<String>, Rc<AstNode>),
    /// The definition of a pure function.
    Defpurefun(String, Vec<String>, Rc<AstNode>),
    /// Aliases of symbols, one form for each.
    DefAliases(Vec<AstNode>),
    /// An alias of a symbol: the new name, then the name it stands for.
    DefAlias(String, String),
    /// An alias of a function: the new name, then the name it stands for.
    DefunAlias(String, String),
}

impl AstNode {
    /// The forms of a list.
    pub fn as_list(&self) -> (r: Result<&Vec<AstNode>, Error>)
        ensures
            match r {
                Ok(v) => self.class == Token::List(*v),
                Err(e) => !(self.class is List) && e == Error::Parse,
            },
    {
        match &self.class {
            Token::List(v) => Ok(v),
            _ => Err(Error::Parse),
        }
    }

    /// The name that a symbol is.
    pub fn as_symbol(&self) -> (r: Result<&String, Error>)
        ensures
            match r {
                Ok(s) => self.class == Token::Symbol(*s),
                Err(e) => !(self.class is Symbol) && e == Error::Parse,
            },
    {
        match &self.class {
            Token::Symbol(s) => Ok(s),
            _ => Err(Error::Parse),
        }
    }
}

/// Whether the form is the symbol `name`.
pub open spec fn is_symbol(e: AstNode, name: Seq<char>) -> bool {
    e.class matches Token::Symbol(s) && s@ == name
}

/// Whether all the forms of `es` are symbols.
pub open spec fn all_symbols(es: Seq<AstNode>) -> bool {
    forall|i: int| 0 <= i < es.len() ==> (#[trigger] es[i]).class is Symbol
}

/// Whether all the forms of `es` are integers that an `isize` can hold.
pub open spec fn all_rows(es: Seq<AstNode>) -> bool {
    forall|i: int|
        0 <= i < es.len() ==> ((#[trigger] es[i]).class matches Token::Value(x) && isize::MIN
            <= x@ <= isize::MAX)
}

/// The name that the symbol `e` is.
pub open spec fn name_of(e: AstNode) -> Seq<char> {
    match e.class {
        Token::Symbol(s) => s@,
        _ => Seq::empty(),
    }
}

/// The number that the integer `e` is.
pub open spec fn number_of(e: AstNode) -> int {
    match e.class {
        Token::Value(x) => x@,
        _ => 0,
    }
}

/// Whether `names` holds the names of the symbols `es[from..]`.
pub open spec fn names_are(names: Seq<String>, es: Seq<AstNode>, from: int) -> bool {
    names.len() == es.len() - from && forall|i: int|
        0 <= i < names.len() ==> (#[trigger] names[i])@ == name_of(es[from + i])
}

/// Whether the forms `args`, of which the first is the name of a kind of
/// definition, make a definition of that kind.
pub open spec fn well_formed(args: Seq<AstNode>) -> bool {
    if args.len() == 0 {
        false
    } else if is_symbol(args[0], "defmodule"@) {
        args.len() >= 2 && args[1].class is Symbol
    } else if is_symbol(args[0], "defconst"@) {
        args.len() % 2 == 1 && forall|i: int|
            1 <= i < args.len() ==> if i % 2 == 1 {
                (#[trigger] args[i]).class is Symbol
            } else {
                args[i].class is Value
            }
    } else if is_symbol(args[0], "defun"@) || is_symbol(args[0], "defpurefun"@) {
        args.len() >= 3 && (args[1].class matches Token::List(fargs) && fargs@.len() > 0
            && all_symbols(fargs@))
    } else if is_symbol(args[0], "defconstraint"@) {
        args.len() >= 4 && args[1].class is Symbol && (args[2].class matches Token::List(domain)
            && all_rows(domain@))
    } else if is_symbol(args[0], "defalias"@) {
        args.len() % 2 == 1 && all_symbols(args)
    } else if is_symbol(args[0], "defunalias"@) {
        args.len() >= 3 && args[1].class is Symbol && args[2].class is Symbol
    } else if is_symbol(args[0], "defplookup"@) {
        args.len() >= 4 && args[1].class is Symbol && args[2].class is List && args[3].class is List
    } else if is_symbol(args[0], "defpermutation"@) {
        args.len() >= 3 && args[1].class is List && args[2].class is List
    } else if is_symbol(args[0], "definrange"@) {
        args.len() >= 3 && (args[2].class matches Token::Value(x) && 0 <= x@ <= usize::MAX)
    } else {
        false
    }
}

/// Whether `class` is the definition that the forms `args` make.
pub open spec fn defines(args: Seq<AstNode>, class: Token) -> bool {
    if is_symbol(args[0], "defmodule"@) {
        class matches Token::DefModule(name) && name@ == name_of(args[1])
    } else if is_symbol(args[0], "defconst"@) {
        class matches Token::DefConsts(cs) && cs@.len() == (args.len() - 1) / 2 && forall|i: int|
            0 <= i < cs@.len() ==> (#[trigger] cs@[i]).0@ == name_of(args[2 * i + 1]) && cs@[i].1@
                == number_of(args[2 * i + 2])
    } else if is_symbol(args[0], "defun"@) {
        class matches Token::Defun(name, params, body) && name@ == name_of(
            args[1].class->List_0@[0],
        ) && names_are(params@, args[1].class->List_0@, 1) && *body == args[2]
    } else if is_symbol(args[0], "defpurefun"@) {
        class matches Token::Defpurefun(name, params, body) && name@ == name_of(
            args[1].class->List_0@[0],
        ) && names_are(params@, args[1].class->List_0@, 1) && *body == args[2]
    } else if is_symbol(args[0], "defconstraint"@) {
        class matches Token::DefConstraint(name, domain, body) && name@ == name_of(args[1])
            && *body == args[3] && match domain {
            None => args[2].class->List_0@.len() == 0,
            Some(rows) => rows@.len() > 0 && rows@.len() == args[2].class->List_0@.len()
                && forall|i: int|
                0 <= i < rows@.len() ==> #[trigger] rows@[i] == number_of(
                    args[2].class->List_0@[i],
                ),
        }
    } else if is_symbol(args[0], "defalias"@) {
        class matches Token::DefAliases(defs) && defs@.len() == (args.len() - 1) / 2 && forall|
            i: int,
        |
            0 <= i < defs@.len() ==> ((#[trigger] defs@[i]).class matches Token::DefAlias(from, to)
                && from@ == name_of(args[2 * i + 1]) && to@ == name_of(args[2 * i + 2]))
    } else if is_symbol(args[0], "defunalias"@) {
        class matches Token::DefunAlias(from, to) && from@ == name_of(args[1]) && to@ == name_of(
            args[2],
        )
    } else if is_symbol(args[0], "defplookup"@) {
        class matches Token::DefPlookup(name, parents, children) && name@ == name_of(args[1])
            && parents == args[2].class->List_0 && children == args[3].class->List_0
    } else if is_symbol(args[0], "defpermutation"@) {
        class matches Token::DefPermutation(tos, froms) && tos == args[1].class->List_0 && froms
            == args[2].class->List_0
    } else if is_symbol(args[0], "definrange"@) {
        class matches Token::DefInrange(e, bound) && *e == args[1] && bound == number_of(args[2])
    } else {
        false
    }
}

fn keyword_is(e: &AstNode, name: &str) -> (r: bool)
    ensures
        r == is_symbol(*e, name@),
{
    match &e.class {
        Token::Symbol(s) => crate::text::str_eq(s.as_str(), name),
        _ => false,
    }
}

fn check_all_symbols(es: &Vec<AstNode>) -> (r: bool)
    ensures
        r == all_symbols(es@),
{
    let mut i: usize = 0;
    while i < es.len()
        invariant
            i <= es.len(),
            forall|j: int| 0 <= j < i ==> (#[trigger] es@[j]).class is Symbol,
        decreases es.len() - i,
    {
        if !matches!(es[i].class, Token::Symbol(_)) {
            return false;
        }
        i = i + 1;
    }
    true
}

fn name(e: &AstNode) -> (r: String)
    ensures
        r@ == name_of(*e),
{
    match &e.class {
        Token::Symbol(s) => s.clone(),
        _ => String::new(),
    }
}

fn names_from(es: &Vec<AstNode>, from: usize) -> (r: Vec<String>)
    requires
        from <= es@.len(),
    ensures
        names_are(r@, es@, from as int),
{
    let mut out: Vec<String> = Vec::new();
    let mut i: usize = from;
    while i < es.len()
        invariant
            from <= i <= es.len(),
            out@.len() == i - from,
            forall|j: int| 0 <= j < out@.len() ==> (#[trigger] out@[j])@ == name_of(es@[from + j]),
        decreases es.len() - i,
    {
        out.push(name(&es[i]));
        i = i + 1;
    }
    out
}

fn rows(es: &Vec<AstNode>) -> (r: Option<Vec<isize>>)
    ensures
        match r {
            Some(v) => all_rows(es@) && v@.len() == es@.len() && forall|i: int|
                0 <= i < v@.len() ==> #[trigger] v@[i] == number_of(es@[i]),
            None => !all_rows(es@),
        },
{
    let mut out: Vec<isize> = Vec::new();
    let mut i: usize = 0;
    while i < es.len()
        invariant
            i <= es.len(),
            out@.len() == i,
            forall|j: int|
                0 <= j < i ==> ((#[trigger] es@[j]).class matches Token::Value(x) && isize::MIN
                    <= x@ <= isize::MAX),
            forall|j: int| 0 <= j < i ==> #[trigger] out@[j] == number_of(es@[j]),
        decreases es.len() - i,
    {
        let row = match &es[i].class {
            Token::Value(x) => x.to_isize(),
            _ => None,
        };
        match row {
            Some(x) => {
                out.push(x);
            },
            None => {
                return None;
            },
        }
        i = i + 1;
    }
    Some(out)
}

/// Takes the forms out of a list.
fn into_list(e: AstNode) -> (r: Vec<AstNode>)
    requires
        e.class is List,
    ensures
        r == e.class->List_0,
{
    match e.class {
        Token::List(v) => v,
        _ => Vec::new(),
    }
}

/// Takes the form of index `i` out of `args`, of which it is the last but
/// for forms that play no part.
fn take(args: &mut Vec<AstNode>, i: usize) -> (r: AstNode)
    requires
        i < old(args)@.len(),
    ensures
        r == old(args)@[i as int],
        final(args)@ == old(args)@.take(i as int),
{
    while args.len() > i + 1
        invariant
            i < args@.len() <= old(args)@.len(),
            args@ == old(args)@.take(args@.len() as int),
        decreases args.len(),
    {
        args.pop();
        assert(args@ =~= old(args)@.take(args@.len() as int));
    }
    let r = args.pop().unwrap();
    assert(args@ =~= old(args)@.take(i as int));
    r
}

impl AstNode {
    /// What the forms `args` make: the definition that they write, where
    /// they are well formed, and an error where they are not.
    pub open spec fn makes(
        args: Seq<AstNode>,
        src: Seq<char>,
        lc: (usize, usize),
        r: Result<AstNode, Error>,
    ) -> bool {
        match r {
            Ok(n) => well_formed(args) && defines(args, n.class) && n.src@ == src && n.lc == lc,
            Err(e) => !well_formed(args) && e == Error::Parse,
        }
    }

    /// The definition that the forms `args` make, of which the first names
    /// the kind of definition. `src` is the text that the forms were read
    /// from, and `lc` the line and column where it starts.
    pub fn from(args: Vec<AstNode>, src: &str, lc: (usize, usize)) -> (r: Result<AstNode, Error>)
        ensures
            Self::makes(args@, src@, lc, r),
    {
        let ghost forms = args@;
        let mut rest = args;
        if rest.len() == 0 {
            return Err(Error::Parse);
        }
        proof {
            reveal_strlit("defmodule");
            reveal_strlit("defconst");
            reveal_strlit("defun");
            reveal_strlit("defpurefun");
            reveal_strlit("defconstraint");
            reveal_strlit("defalias");
            reveal_strlit("defunalias");
            reveal_strlit("defplookup");
            reveal_strlit("defpermutation");
            reveal_strlit("definrange");
            assert("defmodule"@.len() == 9);
            assert("defconst"@.len() == 8);
            assert("defun"@.len() == 5);
            assert("defpurefun"@.len() == 10);
            assert("defconstraint"@.len() == 13);
            assert("defalias"@[3] == 'a');
            assert("defalias"@.len() == 8);
            assert("defconst"@[3] == 'c');
            assert("defunalias"@.len() == 10);
            assert("defunalias"@[3] == 'u');
            assert("defpurefun"@[3] == 'p');
            assert("defplookup"@.len() == 10);
            assert("defplookup"@[4] == 'l');
            assert("defpurefun"@[4] == 'u');
            assert("defpermutation"@.len() == 14);
            assert("definrange"@.len() == 10);
            assert("definrange"@[3] == 'i');
        }
        let class = if keyword_is(&rest[0], "defmodule") {
            if rest.len() >= 2 && matches!(rest[1].class, Token::Symbol(_)) {
                Token::DefModule(name(&rest[1]))
            } else {
                return Err(Error::Parse);
            }
        } else if keyword_is(&rest[0], "defconst") {
            if rest.len() % 2 != 1 {
                return Err(Error::Parse);
            }
            let mut cs: Vec<(String, Integer)> = Vec::new();
            let mut i: usize = 1;
            while i < rest.len()
                invariant
                    1 <= i <= rest.len(),
                    i % 2 == 1,
                    rest@.len() % 2 == 1,
                    rest@ == forms,
                    forms == args@,
                    is_symbol(forms[0], "defconst"@),
                    !is_symbol(forms[0], "defmodule"@),
                    cs@.len() == (i - 1) / 2,
                    forall|j: int|
                        1 <= j < i ==> if j % 2 == 1 {
                            (#[trigger] rest@[j]).class is Symbol
                        } else {
                            rest@[j].class is Value
                        },
                    forall|j: int|
                        0 <= j < cs@.len() ==> (#[trigger] cs@[j]).0@ == name_of(rest@[2 * j + 1])
                            && cs@[j].1@ == number_of(rest@[2 * j + 2]),
                decreases rest.len() - i,
            {
                let value = match (&rest[i].class, &rest[i + 1].class) {
                    (Token::Symbol(_), Token::Value(x)) => x.clone(),
                    _ => {
                        assert(!well_formed(forms)) by {
                            if !(forms[i as int].class is Symbol) {
                                assert(i % 2 == 1);
                            } else {
                                assert((i + 1) % 2 == 0);
                                assert(!(forms[i + 1].class is Value));
                            }
                        }
                        return Err(Error::Parse);
                    },
                };
                cs.push((name(&rest[i]), value));
                i = i + 2;
            }
            Token::DefConsts(cs)
        } else if keyword_is(&rest[0], "defun") || keyword_is(&rest[0], "defpurefun") {
            let pure = keyword_is(&rest[0], "defpurefun");
            let ok = rest.len() >= 3 && match &rest[1].class {
                Token::List(fargs) => fargs.len() > 0 && check_all_symbols(fargs),
                _ => false,
            };
            if !ok {
                return Err(Error::Parse);
            }
            let body = take(&mut rest, 2);
            let head = take(&mut rest, 1);
            let fargs = into_list(head);
            let fname = name(&fargs[0]);
            let params = names_from(&fargs, 1);
            if pure {
                Token::Defpurefun(fname, params, Rc::new(body))
            } else {
                Token::Defun(fname, params, Rc::new(body))
            }
        } else if keyword_is(&rest[0], "defconstraint") {
            if !(rest.len() >= 4 && matches!(rest[1].class, Token::Symbol(_))) {
                return Err(Error::Parse);
            }
            let domain = match &rest[2].class {
                Token::List(domain) => match rows(domain) {
                    Some(d) => d,
                    None => {
                        return Err(Error::Parse);
                    },
                },
                _ => {
                    return Err(Error::Parse);
                },
            };
            let cname = name(&rest[1]);
            let body = take(&mut rest, 3);
            Token::DefConstraint(
                cname,
                if domain.len() == 0 {
                    None
                } else {
                    Some(domain)
                },
                Box::new(body),
            )
        } else if keyword_is(&rest[0], "defalias") {
            if rest.len() % 2 != 1 || !check_all_symbols(&rest) {
                return Err(Error::Parse);
            }
            let mut defs: Vec<AstNode> = Vec::new();
            let mut i: usize = 1;
            while i < rest.len()
                invariant
                    1 <= i <= rest.len(),
                    i % 2 == 1,
                    rest@.len() % 2 == 1,
                    rest@ == forms,
                    defs@.len() == (i - 1) / 2,
                    forall|j: int|
                        0 <= j < defs@.len() ==> ((#[trigger] defs@[j]).class matches Token::DefAlias(
                            from,
                            to,
                        ) && from@ == name_of(rest@[2 * j + 1]) && to@ == name_of(
                            rest@[2 * j + 2],
                        )),
                decreases rest.len() - i,
            {
                defs.push(
                    AstNode {
                        class: Token::DefAlias(name(&rest[i]), name(&rest[i + 1])),
                        src: src.to_owned(),
                        lc,
                    },
                );
                i = i + 2;
            }
            Token::DefAliases(defs)
        } else if keyword_is(&rest[0], "defunalias") {
            if rest.len() >= 3 && matches!(rest[1].class, Token::Symbol(_)) && matches!(
                rest[2].class,
                Token::Symbol(_)
            ) {
                Token::DefunAlias(name(&rest[1]), name(&rest[2]))
            } else {
                return Err(Error::Parse);
            }
        } else if keyword_is(&rest[0], "defplookup") {
            if rest.len() >= 4 && matches!(rest[1].class, Token::Symbol(_)) && matches!(
                rest[2].class,
                Token::List(_)
            ) && matches!(rest[3].class, Token::List(_)) {
                let lname = name(&rest[1]);
                let children = into_list(take(&mut rest, 3));
                let parents = into_list(take(&mut rest, 2));
                Token::DefPlookup(lname, parents, children)
            } else {
                return Err(Error::Parse);
            }
        } else if keyword_is(&rest[0], "defpermutation") {
            if rest.len() >= 3 && matches!(rest[1].class, Token::List(_)) && matches!(
                rest[2].class,
                Token::List(_)
            ) {
                let froms = into_list(take(&mut rest, 2));
                let tos = into_list(take(&mut rest, 1));
                Token::DefPermutation(tos, froms)
            } else {
                return Err(Error::Parse);
            }
        } else if keyword_is(&rest[0], "definrange") {
            if rest.len() < 3 {
                return Err(Error::Parse);
            }
            let bound = match &rest[2].class {
                Token::Value(x) => match x.to_usize() {
                    Some(b) => b,
                    None => {
                        return Err(Error::Parse);
                    },
                },
                _ => {
                    return Err(Error::Parse);
                },
            };
            let e = take(&mut rest, 1);
            Token::DefInrange(Box::new(e), bound)
        } else {
            return Err(Error::Parse);
        };
        Ok(AstNode { class, src: src.to_owned(), lc })
    }
}

/// The indices that an interval of the source stands for. `[n]` stands
/// for the numbers from 1 to `n`, `[a:b]` for those from `a` to `b`, and
/// `[a:b:s]` for `a`, `a + s`, and so on up to `b`.
pub open spec fn interval(start: nat, stop: nat, step: nat) -> Seq<usize>
    decreases (if start <= stop {
        stop + 1 - start
    } else {
        0
    }),
{
    if start > stop || step == 0 || start > usize::MAX {
        Seq::empty()
    } else {
        seq![start as usize] + interval(start + step, stop, step)
    }
}

/// The first, the last and the step of the interval written with the
/// numbers `x1`, `x2` and `x3`, of which the last two may be missing.
pub open spec fn interval_bounds(x1: usize, x2: Option<usize>, x3: Option<usize>) -> (nat, nat, nat) {
    match (x2, x3) {
        (None, _) => (1, x1 as nat, 1),
        (Some(stop), None) => (x1 as nat, stop as nat, 1),
        (Some(stop), Some(step)) => (x1 as nat, stop as nat, step as nat),
    }
}

/// The indices that the interval written with the numbers `x1`, `x2` and
/// `x3` stands for. A step of zero is refused.
pub fn range(x1: usize, x2: Option<usize>, x3: Option<usize>) -> (r: Result<Vec<usize>, Error>)
    ensures
        match r {
            Ok(v) => interval_bounds(x1, x2, x3).2 > 0 && v@ == interval(
                interval_bounds(x1, x2, x3).0,
                interval_bounds(x1, x2, x3).1,
                interval_bounds(x1, x2, x3).2,
            ),
            Err(e) => e == Error::Parse && interval_bounds(x1, x2, x3).2 == 0,
        },
{
    let (start, stop, step) = match (x2, x3) {
        (None, _) => (1, x1, 1),
        (Some(stop), None) => (x1, stop, 1),
        (Some(stop), Some(step)) => (x1, stop, step),
    };
    if step == 0 {
        return Err(Error::Parse);
    }
    let mut out: Vec<usize> = Vec::new();
    let mut i: usize = start;
    proof {
        assert(out@ + interval(start as nat, stop as nat, step as nat) =~= interval(
            start as nat,
            stop as nat,
            step as nat,
        ));
    }
    loop
        invariant_except_break
            out@ + interval(i as nat, stop as nat, step as nat) == interval(
                start as nat,
                stop as nat,
                step as nat,
            ),
        invariant
            step > 0,
        ensures
            out@ == interval(start as nat, stop as nat, step as nat),
        decreases (if i <= stop {
            stop + 1 - i
        } else {
            0
        }),
    {
        if i > stop {
            assert(out@ + Seq::<usize>::empty() =~= out@);
            break ;
        }
        let ghost before = out@;
        out.push(i);
        proof {
            assert(before + (seq![i] + interval(i as nat + step as nat, stop as nat, step as nat))
                =~= out@ + interval(i as nat + step as nat, stop as nat, step as nat));
        }
        match i.checked_add(step) {
            Some(next) => {
                i = next;
            },
            None => {
                proof {
                    assert(interval(i as nat + step as nat, stop as nat, step as nat)
                        =~= Seq::<usize>::empty());
                    assert(out@ + Seq::<usize>::empty() =~= out@);
                }
                break ;
            },
        }
    }
    Ok(out)
}

/// The type that the annotation `s` writes, if it writes one.
pub open spec fn annotated_type(s: Seq<char>) -> Option<Type> {
    if s == "NATURAL"@ || s == ":natural"@ || s == ":integer"@ {
        Some(Type::Column(crate::compiler::types::Magma::Integer))
    } else if s == "BOOLEAN"@ || s == ":boolean"@ || s == ":bool"@ {
        Some(Type::Column(crate::compiler::types::Magma::Boolean))
    } else {
        None
    }
}

/// The type that an annotation of the source stands for.
pub fn type_of_annotation(s: &str) -> (r: Option<Type>)
    ensures
        r == annotated_type(s@),
{
    if crate::text::str_eq(s, "NATURAL") || crate::text::str_eq(s, ":natural")
        || crate::text::str_eq(s, ":integer") {
        Some(Type::Column(crate::compiler::types::Magma::Integer))
    } else if crate::text::str_eq(s, "BOOLEAN") || crate::text::str_eq(s, ":boolean")
        || crate::text::str_eq(s, ":bool") {
        Some(Type::Column(crate::compiler::types::Magma::Boolean))
    } else {
        None
    }
}

/// The declaration of the column `name`: of an array column where a range
/// is given, of a simple column otherwise. A column without type is a
/// column of integers.
pub fn column_declaration(
    name: &str,
    range: Option<Vec<usize>>,
    t: Option<Type>,
    src: &str,
    lc: (usize, usize),
) -> (r: AstNode)
    ensures
        r.src@ == src@,
        r.lc == lc,
        match range {
            Some(indices) => r.class matches Token::DefArrayColumn(n, d, ty) && n@ == name@ && d
                == indices && ty == match t {
                Some(x) => x,
                None => Type::Column(crate::compiler::types::Magma::Integer),
            },
            None => r.class matches Token::DefColumn(n, ty, k) && n@ == name@ && k is Atomic && ty
                == match t {
                Some(x) => x,
                None => Type::Column(crate::compiler::types::Magma::Integer),
            },
        },
{
    let ty = match t {
        Some(x) => x,
        None => Type::Column(crate::compiler::types::Magma::Integer),
    };
    let class = match range {
        Some(indices) => Token::DefArrayColumn(name.to_owned(), indices, ty),
        None => Token::DefColumn(name.to_owned(), ty, Kind::Atomic),
    };
    AstNode { class, src: src.to_owned(), lc }
}

/// What a node of the tree that the grammar gives stands for.
#[derive(Clone, Copy, Debug, PartialEq, Eq, Structural)]
pub enum Rule {
    /// An expression: it holds the form that it is.
    Expr,
    /// A constraint: it holds the form that it is.
    Constraint,
    /// A definition: it holds its keyword, then its arguments.
    Definition,
    /// The keyword of a definition.
    DefinitionKw,
    /// A list of forms.
    List,
    /// A name.
    Symbol,
    /// A declaration of columns: it holds the columns.
    DefColumns,
    /// A column: it holds its name, then at most two annotations.
    DefColumn,
    /// An integer literal.
    Integer,
    /// A `for`: it holds the index, the range and the body.
    ForLoop,
    /// A range given by its bounds: it holds up to three indices.
    Interval,
    /// A range given by its indices, which it holds.
    ImmediateRange,
    /// The annotation of a type.
    Typ,
    /// An index.
    Natural,
    /// Anything else, such as the end of the input.
    Other,
}

/// A node of the tree that the grammar gives: what it stands for, the
/// text it spans, the line and column where that text starts, and the nodes
/// it holds.
pub struct ParseNode {
    pub rule: Rule,
    pub text: String,
    pub lc: (usize, usize),
    pub children: Vec<ParseNode>,
}

/// Whether the form `n` stands where the node `t` stands in the source.
pub open spec fn placed(n: AstNode, t: ParseNode) -> bool {
    n.src@ == t.text@ && n.lc == t.lc
}

/// The index that the `i`-th of the nodes `ts` writes, if there is such a
/// node and it writes one.
pub open spec fn bound(ts: Seq<ParseNode>, i: int) -> Option<usize> {
    if 0 <= i < ts.len() {
        crate::text::parse_usize_spec(ts[i].text@)
    } else {
        None
    }
}

/// Whether each of the nodes `ts` writes an index.
pub open spec fn all_indices(ts: Seq<ParseNode>) -> bool {
    forall|i: int| 0 <= i < ts.len() ==> (#[trigger] bound(ts, i)) is Some
}

/// The range that the node `t` writes, if it writes one: the indices from
/// one bound to the other by a step that is not zero, or the indices that it
/// holds.
pub open spec fn range_of(t: ParseNode) -> Option<Seq<usize>> {
    match t.rule {
        Rule::Interval => match (
            bound(t.children@, 0),
            bound(t.children@, 1),
            bound(t.children@, 2),
        ) {
            (Some(x1), x2, x3) => if (x2 is None && x3 is Some) || interval_bounds(x1, x2, x3).2
                == 0 {
                None
            } else {
                Some(
                    interval(
                        interval_bounds(x1, x2, x3).0,
                        interval_bounds(x1, x2, x3).1,
                        interval_bounds(x1, x2, x3).2,
                    ),
                )
            },
            _ => None,
        },
        Rule::ImmediateRange => if all_indices(t.children@) {
            Some(Seq::new(t.children@.len(), |i: int| bound(t.children@, i)->0))
        } else {
            None
        },
        _ => None,
    }
}

/// The type that the node `t` writes, if it writes one.
pub open spec fn type_written(t: ParseNode) -> Option<Type> {
    if t.rule == Rule::Typ {
        annotated_type(t.text@)
    } else {
        None
    }
}

/// What the first `k` of the nodes `ts` are read as, in order.
pub open spec fn children_parsed(ts: Seq<ParseNode>, k: int, acc: Seq<AstNode>) -> bool
    decreases ts, 0nat, k,
{
    if k <= 0 {
        acc.len() == 0
    } else {
        0 <= k - 1 < ts.len() && exists|prev: Seq<AstNode>, n: AstNode|
            #[trigger] witness((prev, n)) && children_parsed(ts, k - 1, prev) && parses(
                ts[k - 1],
                Ok(n),
            ) && acc == prev.push(n)
    }
}

/// What reading the first `count` of the nodes `ts` gives: the forms they
/// are read as, or the error of the first that cannot be read.
pub open spec fn first_parsed(ts: Seq<ParseNode>, count: int, r: Result<Vec<AstNode>, Error>) -> bool
    decreases ts, 1nat, 0int,
{
    match r {
        Ok(v) => children_parsed(ts, count, v@),
        Err(x) => exists|k: int, prev: Seq<AstNode>|
            #[trigger] witness((k, prev)) && 0 <= k < count && k < ts.len() && children_parsed(
                ts,
                k,
                prev,
            ) && parses(ts[k], Err::<AstNode, Error>(x)),
    }
}

/// What declaring the column that the nodes `ts` write gives: the first
/// node is its name; the range is what the first annotation writes and the
/// type what the last one writes, of two annotations at most.
pub open spec fn column_parsed(t: ParseNode, n: AstNode) -> bool {
    let ts = t.children@;
    let range = if ts.len() > 1 {
        range_of(ts[1])
    } else {
        None
    };
    let written = if ts.len() > 2 {
        type_written(ts[2])
    } else if ts.len() > 1 {
        type_written(ts[1])
    } else {
        None
    };
    let ty = match written {
        Some(x) => x,
        None => Type::Column(crate::compiler::types::Magma::Integer),
    };
    placed(n, t) && match range {
        Some(indices) => n.class matches Token::DefArrayColumn(name, d, y) && name@ == ts[0].text@
            && d@ == indices && y == ty,
        None => n.class matches Token::DefColumn(name, y, k) && name@ == ts[0].text@ && k is Atomic
            && y == ty,
    }
}

/// What the node `t` of the tree that the grammar gives is read as.
///
/// An expression is what it holds. A definition is what its forms make. A
/// list, and a declaration of columns, hold what their nodes are read as. A
/// name, an integer, a range and a type are what their text writes. A `for`
/// is the list of the name `for`, which spans the first three characters of
/// the text, and of what its three nodes are read as. Anything else, and
/// whatever lacks a node or writes no value, is an error.
pub open spec fn parses(t: ParseNode, r: Result<AstNode, Error>) -> bool
    decreases t, 0nat, 0int,
{
    match t.rule {
        Rule::Expr | Rule::Constraint => if t.children@.len() == 0 {
            r matches Err(x) && x == Error::Parse
        } else {
            parses(t.children@[0], r)
        },
        Rule::Definition => exists|ra: Result<Vec<AstNode>, Error>|
            #[trigger] witness(ra) && first_parsed(t.children@, t.children@.len() as int, ra)
                && match ra {
                Err(x) => r matches Err(y) && y == x,
                Ok(args) => AstNode::makes(args@, t.text@, t.lc, r),
            },
        Rule::List => exists|ra: Result<Vec<AstNode>, Error>|
            #[trigger] witness(ra) && first_parsed(t.children@, t.children@.len() as int, ra)
                && match ra {
                Err(x) => r matches Err(y) && y == x,
                Ok(args) => r matches Ok(n) && placed(n, t) && n.class == Token::List(args),
            },
        Rule::DefColumns => exists|ra: Result<Vec<AstNode>, Error>|
            #[trigger] witness(ra) && first_parsed(t.children@, t.children@.len() as int, ra)
                && match ra {
                Err(x) => r matches Err(y) && y == x,
                Ok(args) => r matches Ok(n) && placed(n, t) && n.class == Token::DefColumns(args),
            },
        Rule::Symbol | Rule::DefinitionKw => (r matches Ok(n) && placed(n, t) && (
        n.class matches Token::Symbol(s) && s@ == t.text@)),
        Rule::DefColumn => if t.children@.len() == 0 {
            r matches Err(x) && x == Error::Parse
        } else {
            r matches Ok(n) && column_parsed(t, n)
        },
        Rule::Integer => match crate::integer::integer_of(t.text@) {
            Some(x) => (r matches Ok(n) && placed(n, t) && (n.class matches Token::Value(v) && v@
                == x)),
            None => r matches Err(x) && x == Error::Parse,
        },
        Rule::ForLoop => if t.children@.len() < 3 {
            r matches Err(x) && x == Error::Parse
        } else {
            exists|ra: Result<Vec<AstNode>, Error>|
                #[trigger] witness(ra) && first_parsed(t.children@, 3, ra) && match ra {
                    Err(x) => r matches Err(y) && y == x,
                    Ok(args) => {
                        &&& r matches Ok(n)
                        &&& placed(n, t)
                        &&& n.class matches Token::List(items)
                        &&& items@.len() == 4
                        &&& items@[0].class matches Token::Symbol(s)
                        &&& s@ == "for"@
                        &&& items@[0].lc == t.lc
                        &&& items@[0].src@ == t.text@.take(
                            if t.text@.len() < 3 {
                                t.text@.len() as int
                            } else {
                                3
                            },
                        )
                        &&& items@.skip(1) == args@
                    },
                }
        },
        Rule::Interval | Rule::ImmediateRange => match range_of(t) {
            Some(v) => (r matches Ok(n) && placed(n, t) && (n.class matches Token::Range(d) && d@
                == v)),
            None => r matches Err(x) && x == Error::Parse,
        },
        Rule::Typ => match type_written(t) {
            Some(y) => r matches Ok(n) && placed(n, t) && n.class == Token::Type(y),
            None => r matches Err(x) && x == Error::Parse,
        },
        Rule::Natural | Rule::Other => r matches Err(x) && x == Error::Parse,
    }
}

fn index_at(ts: &Vec<ParseNode>, i: usize) -> (r: Option<usize>)
    ensures
        r == bound(ts@, i as int),
{
    if i < ts.len() {
        let chars = crate::text::to_chars(ts[i].text.as_str());
        assert(chars@.subrange(0, chars@.len() as int) =~= chars@);
        crate::text::parse_usize(&chars, 0)
    } else {
        None
    }
}

/// The range that the node `t` writes, if it writes one.
pub fn read_range(t: &ParseNode) -> (r: Option<Vec<usize>>)
    ensures
        match r {
            Some(v) => range_of(*t) == Some(v@),
            None => range_of(*t) is None,
        },
{
    match t.rule {
        Rule::Interval => {
            let x1 = index_at(&t.children, 0);
            let x2 = index_at(&t.children, 1);
            let x3 = index_at(&t.children, 2);
            match x1 {
                Some(first) => {
                    if x2.is_none() && x3.is_some() {
                        None
                    } else {
                        match range(first, x2, x3) {
                            Ok(v) => Some(v),
                            Err(_) => None,
                        }
                    }
                },
                None => None,
            }
        },
        Rule::ImmediateRange => {
            let mut out: Vec<usize> = Vec::new();
            let mut i: usize = 0;
            while i < t.children.len()
                invariant
                    i <= t.children.len(),
                    out@.len() == i,
                    t.rule == Rule::ImmediateRange,
                    forall|j: int|
                        0 <= j < i ==> (#[trigger] bound(t.children@, j)) == Some(out@[j]),
                decreases t.children.len() - i,
            {
                match index_at(&t.children, i) {
                    Some(x) => {
                        out.push(x);
                    },
                    None => {
                        assert(bound(t.children@, i as int) is None);
                        return None;
                    },
                }
                i = i + 1;
            }
            assert(out@ =~= Seq::new(t.children@.len(), |i: int| bound(t.children@, i)->0));
            Some(out)
        },
        _ => None,
    }
}

/// The type that the node `t` writes, if it writes one.
pub fn read_type(t: &ParseNode) -> (r: Option<Type>)
    ensures
        r == type_written(*t),
{
    match t.rule {
        Rule::Typ => type_of_annotation(t.text.as_str()),
        _ => None,
    }
}

fn parse_first(ts: &Vec<ParseNode>, count: usize) -> (r: Result<Vec<AstNode>, Error>)
    requires
        count <= ts@.len(),
    ensures
        first_parsed(ts@, count as int, r),
    decreases ts, 1nat,
{
    let mut out: Vec<AstNode> = Vec::new();
    let mut i: usize = 0;
    while i < count
        invariant
            i <= count <= ts@.len(),
            children_parsed(ts@, i as int, out@),
        decreases count - i,
    {
        proof {
            vstd::std_specs::vec::axiom_vec_index_decreases(*ts, i as int);
        }
        let ghost prev = out@;
        match rec_parse(&ts[i]) {
            Ok(n) => {
                let ghost read = n;
                out.push(n);
                proof {
                    assert(ts@[(i + 1) - 1] == ts@[i as int]);
                    assert(witness((prev, read)));
                }
            },
            Err(e) => {
                proof {
                    assert(witness((i as int, prev)));
                }
                return Err(e);
            },
        }
        i = i + 1;
    }
    Ok(out)
}

/// Reads the node `t` of the tree that the grammar gives as a form.
pub fn rec_parse(t: &ParseNode) -> (r: Result<AstNode, Error>)
    ensures
        parses(*t, r),
    decreases t, 0nat,
{
    match t.rule {
        Rule::Expr | Rule::Constraint => {
            if t.children.len() == 0 {
                Err(Error::Parse)
            } else {
                proof {
                    assert(decreases_to!(t => t.children));
                    vstd::std_specs::vec::axiom_vec_index_decreases(t.children, 0);
                }
                rec_parse(&t.children[0])
            }
        },
        Rule::Definition => {
            proof {
                assert(decreases_to!(t => t.children));
            }
            let ra = parse_first(&t.children, t.children.len());
            proof {
                assert(witness(ra));
            }
            match ra {
                Ok(args) => AstNode::from(args, t.text.as_str(), t.lc),
                Err(e) => Err(e),
            }
        },
        Rule::List => {
            proof {
                assert(decreases_to!(t => t.children));
            }
            let ra = parse_first(&t.children, t.children.len());
            proof {
                assert(witness(ra));
            }
            match ra {
                Ok(args) => Ok(AstNode { class: Token::List(args), src: t.text.clone(), lc: t.lc }),
                Err(e) => Err(e),
            }
        },
        Rule::DefColumns => {
            proof {
                assert(decreases_to!(t => t.children));
            }
            let ra = parse_first(&t.children, t.children.len());
            proof {
                assert(witness(ra));
            }
            match ra {
                Ok(args) => Ok(
                    AstNode { class: Token::DefColumns(args), src: t.text.clone(), lc: t.lc },
                ),
                Err(e) => Err(e),
            }
        },
        Rule::Symbol | Rule::DefinitionKw => Ok(
            AstNode { class: Token::Symbol(t.text.clone()), src: t.text.clone(), lc: t.lc },
        ),
        Rule::DefColumn => {
            let n = t.children.len();
            if n == 0 {
                return Err(Error::Parse);
            }
            let indices = if n > 1 {
                read_range(&t.children[1])
            } else {
                None
            };
            let written = if n > 2 {
                read_type(&t.children[2])
            } else if n > 1 {
                read_type(&t.children[1])
            } else {
                None
            };
            Ok(
                column_declaration(
                    t.children[0].text.as_str(),
                    indices,
                    written,
                    t.text.as_str(),
                    t.lc,
                ),
            )
        },
        Rule::Integer => match Integer::parse(t.text.as_str()) {
            Some(x) => Ok(AstNode { class: Token::Value(x), src: t.text.clone(), lc: t.lc }),
            None => Err(Error::Parse),
        },
        Rule::ForLoop => {
            if t.children.len() < 3 {
                return Err(Error::Parse);
            }
            proof {
                assert(decreases_to!(t => t.children));
            }
            let ra = parse_first(&t.children, 3);
            proof {
                assert(witness(ra));
            }
            match ra {
                Ok(args) => {
                    let chars = crate::text::to_chars(t.text.as_str());
                    let upto: usize = if chars.len() < 3 {
                        chars.len()
                    } else {
                        3
                    };
                    let head = AstNode {
                        class: Token::Symbol("for".to_owned()),
                        src: crate::text::from_chars(&chars, 0, upto),
                        lc: t.lc,
                    };
                    let ghost read = args@;
                    let mut items: Vec<AstNode> = Vec::new();
                    items.push(head);
                    let mut rest = args;
                    items.append(&mut rest);
                    proof {
                        assert(children_parsed(t.children@, 3, read));
                        assert(read.len() == 3) by {
                            lemma_children_count(t.children@, 3, read);
                        }
                        assert(items@.skip(1) =~= read);
                    }
                    Ok(AstNode { class: Token::List(items), src: t.text.clone(), lc: t.lc })
                },
                Err(e) => Err(e),
            }
        },
        Rule::Interval | Rule::ImmediateRange => match read_range(t) {
            Some(v) => Ok(AstNode { class: Token::Range(v), src: t.text.clone(), lc: t.lc }),
            None => Err(Error::Parse),
        },
        Rule::Typ => match read_type(t) {
            Some(y) => Ok(AstNode { class: Token::Type(y), src: t.text.clone(), lc: t.lc }),
            None => Err(Error::Parse),
        },
        Rule::Natural | Rule::Other => Err(Error::Parse),
    }
}

/// As many forms are read as there are nodes.
pub proof fn lemma_children_count(ts: Seq<ParseNode>, k: int, acc: Seq<AstNode>)
    requires
        0 <= k,
        children_parsed(ts, k, acc),
    ensures
        acc.len() == k,
    decreases k,
{
    if k > 0 {
        let (prev, n) = choose|prev: Seq<AstNode>, n: AstNode|
            #[trigger] witness((prev, n)) && children_parsed(ts, k - 1, prev) && parses(
                ts[k - 1],
                Ok(n),
            ) && acc == prev.push(n);
        lemma_children_count(ts, k - 1, prev);
    }
}

/// What the first `k` of the nodes `ts` that stand for something are read
/// as, in order.
pub open spec fn forms_parsed(ts: Seq<ParseNode>, k: int, acc: Seq<AstNode>) -> bool
    decreases k,
{
    if k <= 0 {
        acc.len() == 0
    } else {
        0 <= k - 1 < ts.len() && exists|prev: Seq<AstNode>|
            #[trigger] witness(prev) && forms_parsed(ts, k - 1, prev) && if ts[k - 1].rule
                == Rule::Other {
                acc == prev
            } else {
                exists|n: AstNode|
                    #[trigger] witness(n) && parses(ts[k - 1], Ok(n)) && acc == prev.push(n)
            }
    }
}

/// What reading a whole source gives: the forms that the nodes of its
/// tree are read as, but for those that stand for nothing; or the error of
/// the first that cannot be read.
pub open spec fn source_parsed(ts: Seq<ParseNode>, r: Result<Ast, Error>) -> bool {
    match r {
        Ok(ast) => forms_parsed(ts, ts.len() as int, ast.exprs@),
        Err(x) => exists|k: int, prev: Seq<AstNode>|
            #[trigger] witness((k, prev)) && 0 <= k < ts.len() && forms_parsed(ts, k, prev)
                && ts[k].rule != Rule::Other && parses(ts[k], Err::<AstNode, Error>(x)),
    }
}

/// Reads the nodes `ts` that the grammar gives for a whole source.
pub fn parse_source(ts: &Vec<ParseNode>) -> (r: Result<Ast, Error>)
    ensures
        source_parsed(ts@, r),
{
    let mut exprs: Vec<AstNode> = Vec::new();
    let mut i: usize = 0;
    while i < ts.len()
        invariant
            i <= ts.len(),
            forms_parsed(ts@, i as int, exprs@),
        decreases ts.len() - i,
    {
        let ghost prev = exprs@;
        proof {
            assert(witness(prev));
            assert(witness((i as int, prev)));
            assert(ts@[(i + 1) - 1] == ts@[i as int]);
        }
        if ts[i].rule != Rule::Other {
            match rec_parse(&ts[i]) {
                Ok(n) => {
                    proof {
                        assert(witness(n));
                    }
                    exprs.push(n);
                },
                Err(e) => {
                    return Err(e);
                },
            }
        }
        i = i + 1;
    }
    Ok(Ast { exprs })
}

} // verus!
