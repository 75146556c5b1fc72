use corset::compiler::definitions::{self, SymbolTable, Symbol};
use corset::compiler::generator::FunctionClass;
use corset::compiler::node::{Expression, Kind};
use corset::compiler::parser::{
    column_declaration, parse_source, range, read_range, read_type, rec_parse, type_of_annotation,
    Ast, AstNode, ParseNode, Rule, Token,
};
use corset::compiler::types::{Magma, Type};
use corset::dict::Dict;
use corset::errors::Error;
use corset::integer::Integer;
use corset::text;

const CB: Type = Type::Column(Magma::Boolean);
const CI: Type = Type::Column(Magma::Integer);

fn node(class: Token) -> AstNode {
    AstNode { class, src: String::new(), lc: (0, 0) }
}

fn sym(name: &str) -> AstNode {
    node(Token::Symbol(name.to_string()))
}

fn val(x: i64) -> AstNode {
    node(Token::Value(Integer::from_i64(x)))
}

fn list(items: Vec<AstNode>) -> AstNode {
    node(Token::List(items))
}

fn define(args: Vec<AstNode>) -> Result<AstNode, Error> {
    AstNode::from(args, "(source)", (3, 14))
}

fn refused(args: Vec<AstNode>) -> bool {
    matches!(define(args), Err(Error::Parse))
}

fn is_symbol(e: &AstNode, name: &str) -> bool {
    matches!(&e.class, Token::Symbol(s) if s == name)
}

#[test]
fn definitions_keep_their_place_in_the_source() {
    let d = define(vec![sym("defmodule"), sym("m")]).unwrap();
    assert_eq!(d.src, "(source)");
    assert_eq!(d.lc, (3, 14));
    assert!(matches!(&d.class, Token::DefModule(name) if name == "m"));
    assert!(refused(vec![sym("defmodule")]));
    assert!(refused(vec![sym("defmodule"), val(1)]));
}

#[test]
fn what_is_no_definition_is_refused() {
    assert!(refused(vec![]));
    assert!(refused(vec![sym("defnothing"), sym("a")]));
    assert!(refused(vec![val(1), sym("a")]));
    assert!(refused(vec![list(vec![sym("defun")])]));
    assert!(refused(vec![sym("+"), val(1), val(2)]));
}

#[test]
fn constants_are_defined_in_pairs() {
    let d = define(vec![sym("defconst"), sym("A"), val(1), sym("B"), val(-20)]).unwrap();
    match &d.class {
        Token::DefConsts(cs) => {
            assert_eq!(cs.len(), 2);
            assert_eq!(cs[0].0, "A");
            assert!(cs[0].1.equals(&Integer::from_i64(1)));
            assert_eq!(cs[1].0, "B");
            assert!(cs[1].1.equals(&Integer::from_i64(-20)));
        }
        _ => panic!("not constants"),
    }
    assert!(matches!(
        &define(vec![sym("defconst")]).unwrap().class,
        Token::DefConsts(cs) if cs.is_empty()
    ));
    assert!(refused(vec![sym("defconst"), sym("A")]));
    assert!(refused(vec![sym("defconst"), sym("A"), sym("B")]));
    assert!(refused(vec![sym("defconst"), val(1), val(2)]));
    assert!(refused(vec![sym("defconst"), sym("A"), val(1), sym("B")]));
}

#[test]
fn functions_are_defined_with_their_parameters() {
    let head = list(vec![sym("f"), sym("x"), sym("y")]);
    let body = list(vec![sym("+"), sym("x"), sym("y")]);
    let d = define(vec![sym("defun"), head, body]).unwrap();
    match &d.class {
        Token::Defun(name, params, body) => {
            assert_eq!(name, "f");
            assert_eq!(params, &vec!["x".to_string(), "y".to_string()]);
            match &body.class {
                Token::List(items) => {
                    assert_eq!(items.len(), 3);
                    assert!(is_symbol(&items[0], "+"));
                }
                _ => panic!("not a list"),
            }
        }
        _ => panic!("not a function"),
    }
    let d = define(vec![sym("defpurefun"), list(vec![sym("g")]), val(1)]).unwrap();
    assert!(matches!(
        &d.class,
        Token::Defpurefun(name, params, _) if name == "g" && params.is_empty()
    ));
    assert!(refused(vec![sym("defun"), list(vec![]), val(1)]));
    assert!(refused(vec![sym("defun"), list(vec![sym("f"), val(1)]), val(1)]));
    assert!(refused(vec![sym("defun"), sym("f"), val(1)]));
    assert!(refused(vec![sym("defun"), list(vec![sym("f")])]));
    assert!(refused(vec![sym("defpurefun"), list(vec![val(1)]), val(1)]));
}

#[test]
fn constraints_are_defined_with_their_domain() {
    let everywhere = define(vec![sym("defconstraint"), sym("c"), list(vec![]), sym("x")]).unwrap();
    match &everywhere.class {
        Token::DefConstraint(name, domain, body) => {
            assert_eq!(name, "c");
            assert_eq!(domain, &None);
            assert!(is_symbol(body, "x"));
        }
        _ => panic!("not a constraint"),
    }
    let somewhere = define(vec![
        sym("defconstraint"),
        sym("c"),
        list(vec![val(0), val(-1), val(7)]),
        sym("x"),
    ])
    .unwrap();
    assert!(matches!(
        &somewhere.class,
        Token::DefConstraint(_, Some(rows), _) if rows == &vec![0, -1, 7]
    ));
    assert!(refused(vec![sym("defconstraint"), sym("c"), list(vec![])]));
    assert!(refused(vec![sym("defconstraint"), val(1), list(vec![]), sym("x")]));
    assert!(refused(vec![sym("defconstraint"), sym("c"), sym("d"), sym("x")]));
    assert!(refused(vec![
        sym("defconstraint"),
        sym("c"),
        list(vec![val(0), sym("y")]),
        sym("x")
    ]));
    let huge = node(Token::Value(Integer::from_parts(false, vec![0, 0, 1])));
    assert!(refused(vec![sym("defconstraint"), sym("c"), list(vec![huge]), sym("x")]));
}

#[test]
fn aliases_are_defined_in_pairs() {
    let d = define(vec![sym("defalias"), sym("a"), sym("x"), sym("b"), sym("y")]).unwrap();
    match &d.class {
        Token::DefAliases(defs) => {
            assert_eq!(defs.len(), 2);
            assert!(matches!(
                &defs[0].class,
                Token::DefAlias(from, to) if from == "a" && to == "x"
            ));
            assert!(matches!(
                &defs[1].class,
                Token::DefAlias(from, to) if from == "b" && to == "y"
            ));
            assert_eq!(defs[1].src, "(source)");
            assert_eq!(defs[1].lc, (3, 14));
        }
        _ => panic!("not aliases"),
    }
    assert!(refused(vec![sym("defalias"), sym("a")]));
    assert!(refused(vec![sym("defalias"), sym("a"), val(1)]));
    assert!(refused(vec![sym("defalias"), sym("a"), sym("x"), sym("b")]));
    let d = define(vec![sym("defunalias"), sym("plus"), sym("+")]).unwrap();
    assert!(matches!(
        &d.class,
        Token::DefunAlias(from, to) if from == "plus" && to == "+"
    ));
    assert!(refused(vec![sym("defunalias"), sym("plus")]));
    assert!(refused(vec![sym("defunalias"), sym("plus"), val(1)]));
}

#[test]
fn lookups_permutations_and_ranges_are_defined() {
    let d = define(vec![
        sym("defplookup"),
        sym("l"),
        list(vec![sym("a"), sym("b")]),
        list(vec![sym("c"), sym("d")]),
    ])
    .unwrap();
    match &d.class {
        Token::DefPlookup(name, parents, children) => {
            assert_eq!(name, "l");
            assert!(is_symbol(&parents[0], "a") && is_symbol(&parents[1], "b"));
            assert!(is_symbol(&children[0], "c") && is_symbol(&children[1], "d"));
        }
        _ => panic!("not a lookup"),
    }
    assert!(refused(vec![sym("defplookup"), sym("l"), list(vec![])]));
    assert!(refused(vec![sym("defplookup"), sym("l"), sym("a"), list(vec![])]));
    assert!(refused(vec![sym("defplookup"), list(vec![]), list(vec![]), list(vec![])]));
    let d = define(vec![
        sym("defpermutation"),
        list(vec![sym("s"), sym("t")]),
        list(vec![sym("a"), sym("b")]),
    ])
    .unwrap();
    match &d.class {
        Token::DefPermutation(tos, froms) => {
            assert!(is_symbol(&tos[0], "s") && is_symbol(&tos[1], "t"));
            assert!(is_symbol(&froms[0], "a") && is_symbol(&froms[1], "b"));
        }
        _ => panic!("not a permutation"),
    }
    assert!(refused(vec![sym("defpermutation"), list(vec![])]));
    assert!(refused(vec![sym("defpermutation"), sym("s"), list(vec![])]));
    let d = define(vec![sym("definrange"), sym("x"), val(256)]).unwrap();
    assert!(matches!(
        &d.class,
        Token::DefInrange(e, 256) if is_symbol(e, "x")
    ));
    assert!(refused(vec![sym("definrange"), sym("x")]));
    assert!(refused(vec![sym("definrange"), sym("x"), val(-1)]));
    assert!(refused(vec![sym("definrange"), sym("x"), sym("y")]));
}

#[test]
fn intervals_are_expanded() {
    assert_eq!(range(3, None, None), Ok(vec![1, 2, 3]));
    assert_eq!(range(0, None, None), Ok(vec![]));
    assert_eq!(range(2, Some(5), None), Ok(vec![2, 3, 4, 5]));
    assert_eq!(range(5, Some(5), None), Ok(vec![5]));
    assert_eq!(range(6, Some(5), None), Ok(vec![]));
    assert_eq!(range(1, Some(10), Some(3)), Ok(vec![1, 4, 7, 10]));
    assert_eq!(range(0, Some(10), Some(4)), Ok(vec![0, 4, 8]));
    assert_eq!(range(1, Some(10), Some(0)), Err(Error::Parse));
    assert_eq!(
        range(usize::MAX - 1, Some(usize::MAX), Some(1)),
        Ok(vec![usize::MAX - 1, usize::MAX])
    );
    // The step is only read after a last index.
    assert_eq!(range(3, None, Some(0)), Ok(vec![1, 2, 3]));
}

#[test]
fn annotations_are_types() {
    assert_eq!(type_of_annotation("NATURAL"), Some(CI));
    assert_eq!(type_of_annotation(":natural"), Some(CI));
    assert_eq!(type_of_annotation(":integer"), Some(CI));
    assert_eq!(type_of_annotation("BOOLEAN"), Some(CB));
    assert_eq!(type_of_annotation(":boolean"), Some(CB));
    assert_eq!(type_of_annotation(":bool"), Some(CB));
    assert_eq!(type_of_annotation("natural"), None);
    assert_eq!(type_of_annotation(""), None);
}

#[test]
fn columns_are_declared() {
    let d = column_declaration("a", None, None, "a", (1, 2));
    assert!(matches!(
        &d.class,
        Token::DefColumn(name, t, Kind::Atomic) if name == "a" && *t == CI
    ));
    assert_eq!(d.src, "a");
    assert_eq!(d.lc, (1, 2));
    let d = column_declaration("b", None, Some(CB), "b", (0, 0));
    assert!(matches!(&d.class, Token::DefColumn(_, t, _) if *t == CB));
    let d = column_declaration("c", Some(vec![1, 2, 3]), Some(CB), "c", (0, 0));
    assert!(matches!(
        &d.class,
        Token::DefArrayColumn(name, indices, t)
            if name == "c" && indices == &vec![1, 2, 3] && *t == CB
    ));
}

#[test]
fn forms_are_read_as_lists_and_symbols() {
    let l = list(vec![sym("a")]);
    assert_eq!(l.as_list().map(|v| v.len()), Ok(1));
    assert!(matches!(l.as_symbol(), Err(Error::Parse)));
    let s = sym("a");
    assert_eq!(s.as_symbol().map(|s| s.as_str()), Ok("a"));
    assert!(matches!(s.as_list(), Err(Error::Parse)));
}

fn declare(forms: Vec<AstNode>) -> (SymbolTable, Result<(), Error>) {
    let mut table = SymbolTable::new_root();
    let r = definitions::pass(&Ast { exprs: forms }, &mut table);
    (table, r)
}

fn module(mut forms: Vec<AstNode>) -> (SymbolTable, Result<(), Error>) {
    let mut all = vec![node(Token::DefModule("m".to_string()))];
    all.append(&mut forms);
    declare(all)
}

fn column(name: &str, kind: Kind<AstNode>) -> AstNode {
    node(Token::DefColumn(name.to_string(), CI, kind))
}

#[test]
fn declarations_fill_the_table() {
    let (table, r) = module(vec![
        node(Token::DefColumns(vec![
            column("a", Kind::Atomic),
            column("p", Kind::Phantom),
            column("k", Kind::Composite(Box::new(sym("a")))),
            node(Token::DefArrayColumn("arr".to_string(), vec![1, 2], CB)),
        ])),
        node(Token::DefConsts(vec![("TWO".to_string(), Integer::from_u64(2))])),
        node(Token::DefAliases(vec![node(Token::DefAlias("b".to_string(), "a".to_string()))])),
        node(Token::DefunAlias("plus".to_string(), "+".to_string())),
        node(Token::DefConstraint("c".to_string(), None, Box::new(sym("a")))),
        define(vec![sym("defun"), list(vec![sym("f"), sym("x")]), sym("x")]).unwrap(),
        define(vec![sym("defpurefun"), list(vec![sym("g"), sym("x")]), sym("x")]).unwrap(),
    ]);
    assert_eq!(r, Ok(()));
    assert_eq!(table.scopes.len(), 2);
    let m = &table.scopes[1];
    assert_eq!(m.name, "m");
    assert!(!m.closed);
    let kind_of = |symbols: &Dict<Symbol>, name: &str| match symbols.get(name) {
        Some(Symbol::Final(n, used)) => {
            assert!(!used);
            assert_eq!(n.t(), CI);
            match &n._e {
                Expression::Column(h, k) => {
                    assert_eq!(h.module, "m");
                    assert_eq!(h.name, name);
                    assert_eq!(h.id, None);
                    match k {
                        Kind::Atomic => "atomic",
                        Kind::Phantom => "phantom",
                        Kind::Composite(_) => "composite",
                        Kind::Interleaved(_) => "interleaved",
                    }
                }
                _ => panic!("not a column"),
            }
        }
        _ => panic!("no such symbol"),
    };
    assert_eq!(kind_of(&m.symbols, "a"), "atomic");
    assert_eq!(kind_of(&m.symbols, "p"), "phantom");
    // The expression of a composite column comes later.
    assert_eq!(kind_of(&m.symbols, "k"), "phantom");
    assert!(matches!(
        m.symbols.get("arr"),
        Some(Symbol::Final(n, _))
            if matches!(&n._e, Expression::ArrayColumn(h, r) if h.name == "arr" && r == &vec![1, 2])
                && n.t() == CB
    ));
    assert!(matches!(m.symbols.get("b"), Some(Symbol::Alias(to)) if to == "a"));
    assert!(matches!(
        m.symbols.get("TWO"),
        Some(Symbol::Final(n, _)) if matches!(&n._e, Expression::Const(..))
    ));
    assert_eq!(m.symbols.len(), 6);
    assert!(m.constraints.contains_key("c"));
    assert!(matches!(
        m.funcs.get("plus"),
        Some(f) if matches!(&f.class, FunctionClass::Alias(to) if to == "+")
            && f.handle.name == "+" && f.handle.module == "m"
    ));
    assert!(matches!(
        m.funcs.get("f"),
        Some(f) if matches!(&f.class, FunctionClass::UserDefined(d) if !d.pure && d.args.len() == 1)
            && f.handle.name == "f"
    ));
    assert!(matches!(
        m.funcs.get("g"),
        Some(f) if matches!(&f.class, FunctionClass::UserDefined(d) if d.pure)
    ));
    assert_eq!(table.computation_table.len(), 0);
}

#[test]
fn declarations_fail_on_duplicates() {
    assert_eq!(
        module(vec![node(Token::DefColumns(vec![
            column("a", Kind::Atomic),
            column("a", Kind::Atomic)
        ]))])
        .1,
        Err(Error::DuplicateSymbol)
    );
    assert_eq!(
        module(vec![
            node(Token::DefConstraint("c".to_string(), None, Box::new(val(0)))),
            node(Token::DefConstraint("c".to_string(), None, Box::new(val(0)))),
        ])
        .1,
        Err(Error::DuplicateConstraint)
    );
    assert_eq!(
        module(vec![
            node(Token::DefunAlias("f".to_string(), "+".to_string())),
            node(Token::DefunAlias("f".to_string(), "-".to_string())),
        ])
        .1,
        Err(Error::DuplicateFunction)
    );
    assert_eq!(
        module(vec![node(Token::DefConsts(vec![
            ("A".to_string(), Integer::from_u64(1)),
            ("A".to_string(), Integer::from_u64(2)),
        ]))])
        .1,
        Err(Error::DuplicateSymbol)
    );
    assert_eq!(
        module(vec![node(Token::DefConsts(vec![(
            "A".to_string(),
            Integer::from_i64(-1)
        )]))])
        .1,
        Err(Error::NotInField)
    );
    // All the columns of a list are declared, whatever fails.
    let (table, r) = module(vec![node(Token::DefColumns(vec![
        column("a", Kind::Atomic),
        column("a", Kind::Atomic),
        column("b", Kind::Atomic),
    ]))]);
    assert_eq!(r, Err(Error::DuplicateSymbol));
    assert!(table.scopes[1].symbols.contains_key("b"));
}

#[test]
fn modules_are_scopes_of_the_root() {
    let (table, r) = declare(vec![
        node(Token::DefModule("m".to_string())),
        node(Token::DefColumns(vec![column("a", Kind::Atomic)])),
        node(Token::DefModule("n".to_string())),
        node(Token::DefColumns(vec![column("a", Kind::Atomic)])),
        node(Token::DefModule("m".to_string())),
        node(Token::DefColumns(vec![column("b", Kind::Atomic)])),
        val(1),
        sym("x"),
    ]);
    assert_eq!(r, Ok(()));
    assert_eq!(table.scopes.len(), 3);
    assert_eq!(table.scopes[1].name, "m");
    assert_eq!(table.scopes[2].name, "n");
    assert_eq!(table.scopes[1].symbols.len(), 2);
    assert_eq!(table.scopes[2].symbols.len(), 1);
    assert_eq!(table.scopes[0].symbols.len(), 0);
    assert_eq!(table.scopes[1].parent, Some(0));
}

#[test]
fn interleaved_columns_need_their_sources() {
    let from = |name: &str| corset::compiler::common::Handle::new("", name);
    let (table, r) = module(vec![node(Token::DefColumns(vec![
        column("a", Kind::Atomic),
        column("b", Kind::Atomic),
        column("i", Kind::Interleaved(vec![from("a"), from("b")])),
    ]))]);
    assert_eq!(r, Ok(()));
    match table.scopes[1].symbols.get("i") {
        Some(Symbol::Final(n, _)) => match &n._e {
            Expression::Column(_, Kind::Interleaved(froms)) => {
                assert_eq!(froms.len(), 2);
                assert_eq!(froms[0].module, "m");
                assert_eq!(froms[0].name, "a");
                assert_eq!(froms[1].name, "b");
            }
            _ => panic!("not an interleaved column"),
        },
        _ => panic!("no such symbol"),
    }
    let (_, r) = module(vec![node(Token::DefColumns(vec![
        column("a", Kind::Atomic),
        column("i", Kind::Interleaved(vec![from("a"), from("nope")])),
    ]))]);
    assert_eq!(r, Err(Error::UnknownSymbol));
}

#[test]
fn permutations_declare_their_targets() {
    let (table, r) = module(vec![
        node(Token::DefColumns(vec![
            column("a", Kind::Atomic),
            column("b", Kind::Atomic),
        ])),
        node(Token::DefPermutation(
            vec![sym("s"), sym("t")],
            vec![sym("a"), sym("b")],
        )),
    ]);
    assert_eq!(r, Ok(()));
    let m = &table.scopes[1];
    for name in ["s", "t"] {
        assert!(matches!(
            m.symbols.get(name),
            Some(Symbol::Final(n, _))
                if matches!(&n._e, Expression::Column(_, Kind::Phantom)) && n.t() == CI
        ));
    }
    assert_eq!(table.computation_table.len(), 1);
    match table.computation_table.get(0).unwrap() {
        corset::column::Computation::Sorted { froms, tos } => {
            assert_eq!(froms.iter().map(|h| h.name.as_str()).collect::<Vec<_>>(), vec!["a", "b"]);
            assert_eq!(tos.iter().map(|h| h.name.as_str()).collect::<Vec<_>>(), vec!["s", "t"]);
            assert_eq!(tos[0].module, "m");
        }
        _ => panic!("not a sort"),
    }
    let s = corset::compiler::common::Handle::new("m", "s");
    let t = corset::compiler::common::Handle::new("m", "t");
    assert_eq!(table.computation_table.dependencies(&s), Some(0));
    assert_eq!(table.computation_table.dependencies(&t), Some(0));
}

#[test]
fn permutations_need_as_many_columns_on_both_sides() {
    assert_eq!(
        module(vec![
            node(Token::DefColumns(vec![column("a", Kind::Atomic)])),
            node(Token::DefPermutation(vec![sym("s"), sym("t")], vec![sym("a")])),
        ])
        .1,
        Err(Error::IncoherentLengths)
    );
    assert_eq!(
        module(vec![node(Token::DefPermutation(vec![sym("s")], vec![sym("nope")]))]).1,
        Err(Error::UnknownSymbol)
    );
    assert_eq!(
        module(vec![
            node(Token::DefColumns(vec![column("a", Kind::Atomic)])),
            node(Token::DefPermutation(vec![val(1)], vec![sym("a")])),
        ])
        .1,
        Err(Error::Parse)
    );
}

#[test]
fn text_helpers() {
    assert_eq!(text::decimal_string(0), "0");
    assert_eq!(text::decimal_string(7), "7");
    assert_eq!(text::decimal_string(1234567890), "1234567890");
    assert_eq!(text::decimal_string(usize::MAX), usize::MAX.to_string());
    assert_eq!(text::concat("ab", "cd"), "abcd");
    assert!(text::str_eq("ab", "ab"));
    assert!(!text::str_eq("ab", "abc"));
    assert_eq!(text::to_chars("h\u{e9}!"), vec!['h', '\u{e9}', '!']);
    assert_eq!(text::from_chars(&vec!['a', 'b', 'c', 'd'], 1, 3), "bc");
    assert_eq!(text::find_char(&vec!['a', 'b', 'a'], 'a', 1), 2);
    assert_eq!(text::find_char(&vec!['a', 'b', 'a'], 'c', 0), 3);
    let parse = |s: &str| text::parse_usize(&s.chars().collect(), 0);
    assert_eq!(parse("0"), Some(0));
    assert_eq!(parse("42"), Some(42));
    assert_eq!(parse("+42"), Some(42));
    assert_eq!(parse("0042"), Some(42));
    assert_eq!(parse(""), None);
    assert_eq!(parse("+"), None);
    assert_eq!(parse("-1"), None);
    assert_eq!(parse("4 2"), None);
    assert_eq!(parse(&usize::MAX.to_string()), Some(usize::MAX));
    assert_eq!(parse("99999999999999999999999999"), None);
    assert_eq!(text::parse_usize(&"a12".chars().collect(), 1), Some(12));
    let split = |s: &str, c: char| text::split(&s.chars().collect(), c);
    assert_eq!(split("a.b.c", '.'), vec!["a", "b", "c"]);
    assert_eq!(split("abc", '.'), vec!["abc"]);
    assert_eq!(split("", '.'), vec![""]);
    assert_eq!(split(".a.", '.'), vec!["", "a", ""]);
    assert_eq!(split("..", '.'), vec!["", "", ""]);
    assert!(text::contains_str(&vec!["a".to_string(), "b".to_string()], "b"));
    assert!(!text::contains_str(&vec!["a".to_string()], "b"));
    assert_eq!(text::digit_from('7'), Some(7));
    assert_eq!(text::digit_from('a'), None);
}

#[test]
fn dictionaries_keep_their_order() {
    let mut d: Dict<u32> = Dict::new();
    assert_eq!(d.len(), 0);
    d.insert("b".to_string(), 2);
    d.insert("a".to_string(), 1);
    assert_eq!(d.len(), 2);
    assert_eq!(d.find("b"), Some(0));
    assert_eq!(d.find("a"), Some(1));
    assert_eq!(d.find("c"), None);
    assert_eq!(d.get("a"), Some(&1));
    assert_eq!(d.get("c"), None);
    assert!(d.contains_key("b"));
    assert_eq!(d.key(0), "b");
    assert_eq!(d.value(1), &1);
    d.set_value(0, 20);
    assert_eq!(d.get("b"), Some(&20));
    assert_eq!(d.replace(1, 10), 1);
    assert_eq!(d.get("a"), Some(&10));
    let mut m = corset::dict::HandleMap::new();
    m.insert("m", "a", 1);
    m.insert("n", "a", 2);
    m.insert("m", "b", 3);
    m.insert("m", "a", 4);
    assert_eq!(m.get("m", "a"), Some(&4));
    assert_eq!(m.get("n", "a"), Some(&2));
    assert_eq!(m.get("m", "b"), Some(&3));
    assert_eq!(m.get("n", "b"), None);
    assert!(m.contains("m", "b"));
    assert_eq!(m.modules(), 2);
    assert_eq!(m.module(1), "n");
    assert_eq!(m.symbols(0).len(), 2);
}

fn leaf(rule: Rule, text: &str) -> ParseNode {
    ParseNode { rule, text: text.to_string(), lc: (1, 1), children: vec![] }
}

fn tree(rule: Rule, text: &str, children: Vec<ParseNode>) -> ParseNode {
    ParseNode { rule, text: text.to_string(), lc: (2, 5), children }
}

fn expr(inner: ParseNode) -> ParseNode {
    let text = inner.text.clone();
    tree(Rule::Expr, &text, vec![inner])
}

#[test]
fn integers_are_parsed() {
    let reads = |s: &str, x: i64| match Integer::parse(s) {
        Some(r) => r.equals(&Integer::from_i64(x)),
        None => false,
    };
    assert!(reads("0", 0));
    assert!(reads("42", 42));
    assert!(reads("-42", -42));
    assert!(reads("+7", 7));
    assert!(reads("-0", 0));
    assert!(reads("1_000", 1000));
    assert!(reads("007", 7));
    assert!(!reads("42", 43));
    let big = Integer::parse("340282366920938463463374607431768211456").unwrap();
    let two_64 = Integer::from_u64(u64::MAX).add(&Integer::from_u64(1));
    assert!(big.equals(&two_64.mul(&two_64)));
    for bad in ["", "-", "+", "_1", "-_1", "-+1", "++1", "--1", "1a", "a", " 1", "1 ", "١"] {
        assert!(Integer::parse(bad).is_none(), "{bad:?}");
    }
}

#[test]
fn leaves_are_read_as_they_are_written() {
    let s = rec_parse(&leaf(Rule::Symbol, "x")).unwrap();
    assert!(matches!(&s.class, Token::Symbol(n) if n == "x"));
    assert_eq!((s.src.as_str(), s.lc), ("x", (1, 1)));
    let k = rec_parse(&leaf(Rule::DefinitionKw, "defun")).unwrap();
    assert!(matches!(&k.class, Token::Symbol(n) if n == "defun"));
    let v = rec_parse(&leaf(Rule::Integer, "-12")).unwrap();
    assert!(matches!(&v.class, Token::Value(x) if x.equals(&Integer::from_i64(-12))));
    assert_eq!(rec_parse(&leaf(Rule::Integer, "twelve")).err(), Some(Error::Parse));
    let t = rec_parse(&leaf(Rule::Typ, ":boolean")).unwrap();
    assert!(matches!(t.class, Token::Type(Type::Column(Magma::Boolean))));
    let t = rec_parse(&leaf(Rule::Typ, "NATURAL")).unwrap();
    assert!(matches!(t.class, Token::Type(Type::Column(Magma::Integer))));
    assert_eq!(rec_parse(&leaf(Rule::Typ, ":float")).err(), Some(Error::Parse));
    assert_eq!(rec_parse(&leaf(Rule::Natural, "3")).err(), Some(Error::Parse));
    assert_eq!(rec_parse(&leaf(Rule::Other, "")).err(), Some(Error::Parse));
    assert_eq!(rec_parse(&leaf(Rule::Expr, "")).err(), Some(Error::Parse));
    // An expression is what it holds.
    let e = rec_parse(&expr(expr(leaf(Rule::Symbol, "y")))).unwrap();
    assert!(matches!(&e.class, Token::Symbol(n) if n == "y"));
    assert_eq!(e.lc, (1, 1));
}

#[test]
fn ranges_are_read() {
    let n = |x: &str| leaf(Rule::Natural, x);
    let interval = |bounds: Vec<&str>| {
        tree(Rule::Interval, "[..]", bounds.into_iter().map(n).collect())
    };
    assert_eq!(read_range(&interval(vec!["3"])), Some(vec![1, 2, 3]));
    assert_eq!(read_range(&interval(vec!["2", "5"])), Some(vec![2, 3, 4, 5]));
    assert_eq!(read_range(&interval(vec!["2", "9", "3"])), Some(vec![2, 5, 8]));
    assert_eq!(read_range(&interval(vec!["5", "2"])), Some(vec![]));
    assert_eq!(read_range(&interval(vec!["2", "9", "0"])), None);
    assert_eq!(read_range(&interval(vec![])), None);
    assert_eq!(read_range(&interval(vec!["x"])), None);
    // A bound that writes no index counts as wanting.
    assert_eq!(read_range(&interval(vec!["3", "x"])), Some(vec![1, 2, 3]));
    assert_eq!(read_range(&interval(vec!["3", "x", "2"])), None);
    let given = tree(Rule::ImmediateRange, "{..}", vec![n("4"), n("2"), n("4")]);
    assert_eq!(read_range(&given), Some(vec![4, 2, 4]));
    let r = rec_parse(&given).unwrap();
    assert!(matches!(&r.class, Token::Range(v) if *v == vec![4, 2, 4]));
    assert_eq!(r.lc, (2, 5));
    let bad = tree(Rule::ImmediateRange, "{..}", vec![n("4"), n("-2")]);
    assert_eq!(read_range(&bad), None);
    assert_eq!(rec_parse(&bad).err(), Some(Error::Parse));
    assert_eq!(read_range(&leaf(Rule::Symbol, "3")), None);
    assert_eq!(read_type(&leaf(Rule::Symbol, ":bool")), None);
    assert_eq!(read_type(&leaf(Rule::Typ, ":bool")), Some(Type::Column(Magma::Boolean)));
}

#[test]
fn lists_hold_what_their_nodes_are_read_as() {
    let l = tree(
        Rule::List,
        "(+ x 1)",
        vec![
            expr(leaf(Rule::Symbol, "+")),
            expr(leaf(Rule::Symbol, "x")),
            expr(leaf(Rule::Integer, "1")),
        ],
    );
    let r = rec_parse(&l).unwrap();
    assert_eq!((r.src.as_str(), r.lc), ("(+ x 1)", (2, 5)));
    match &r.class {
        Token::List(items) => {
            assert_eq!(items.len(), 3);
            assert!(matches!(&items[0].class, Token::Symbol(n) if n == "+"));
            assert!(matches!(&items[2].class, Token::Value(x) if x.equals(&Integer::from_u64(1))));
        }
        _ => panic!("no list"),
    }
    let empty = rec_parse(&tree(Rule::List, "()", vec![])).unwrap();
    assert!(matches!(&empty.class, Token::List(items) if items.is_empty()));
    // The first node that cannot be read is the error.
    let bad = tree(
        Rule::List,
        "(x 1z)",
        vec![leaf(Rule::Symbol, "x"), leaf(Rule::Integer, "1z"), leaf(Rule::Other, "")],
    );
    assert_eq!(rec_parse(&bad).err(), Some(Error::Parse));
}

#[test]
fn a_for_is_a_list_headed_by_its_name() {
    let body = tree(Rule::List, "(f i)", vec![leaf(Rule::Symbol, "f"), leaf(Rule::Symbol, "i")]);
    let range = tree(Rule::Interval, "[2]", vec![leaf(Rule::Natural, "2")]);
    let f = tree(
        Rule::ForLoop,
        "(for i [2] (f i))",
        vec![leaf(Rule::Symbol, "i"), range, expr(body)],
    );
    let r = rec_parse(&f).unwrap();
    match &r.class {
        Token::List(items) => {
            assert_eq!(items.len(), 4);
            assert!(matches!(&items[0].class, Token::Symbol(n) if n == "for"));
            assert_eq!((items[0].src.as_str(), items[0].lc), ("(fo", (2, 5)));
            assert!(matches!(&items[1].class, Token::Symbol(n) if n == "i"));
            assert!(matches!(&items[2].class, Token::Range(v) if *v == vec![1, 2]));
            assert!(matches!(&items[3].class, Token::List(l) if l.len() == 2));
        }
        _ => panic!("no list"),
    }
    let short = tree(Rule::ForLoop, "fo", vec![leaf(Rule::Symbol, "i")]);
    assert_eq!(rec_parse(&short).err(), Some(Error::Parse));
}

#[test]
fn columns_are_read_with_their_annotations() {
    let interval = || tree(Rule::Interval, "[2]", vec![leaf(Rule::Natural, "2")]);
    let typ = || leaf(Rule::Typ, ":boolean");
    let column = |annotations: Vec<ParseNode>| {
        let mut children = vec![leaf(Rule::Symbol, "c")];
        children.extend(annotations);
        rec_parse(&tree(Rule::DefColumn, "(c ..)", children)).unwrap()
    };
    let ci = Type::Column(Magma::Integer);
    let cb = Type::Column(Magma::Boolean);
    assert!(matches!(
        &column(vec![]).class,
        Token::DefColumn(n, t, Kind::Atomic) if n == "c" && *t == ci
    ));
    assert!(matches!(
        &column(vec![typ()]).class,
        Token::DefColumn(n, t, Kind::Atomic) if n == "c" && *t == cb
    ));
    assert!(matches!(
        &column(vec![interval()]).class,
        Token::DefArrayColumn(n, r, t) if n == "c" && *r == vec![1, 2] && *t == ci
    ));
    assert!(matches!(
        &column(vec![interval(), typ()]).class,
        Token::DefArrayColumn(n, r, t) if n == "c" && *r == vec![1, 2] && *t == cb
    ));
    // The range comes first and the type last.
    assert!(matches!(
        &column(vec![typ(), interval()]).class,
        Token::DefColumn(n, t, Kind::Atomic) if n == "c" && *t == ci
    ));
    assert_eq!(column(vec![typ()]).lc, (2, 5));
    assert_eq!(
        rec_parse(&tree(Rule::DefColumn, "()", vec![])).err(),
        Some(Error::Parse)
    );
    let columns = tree(
        Rule::DefColumns,
        "(defcolumns a (b :boolean))",
        vec![
            tree(Rule::DefColumn, "a", vec![leaf(Rule::Symbol, "a")]),
            tree(Rule::DefColumn, "(b :boolean)", vec![leaf(Rule::Symbol, "b"), typ()]),
        ],
    );
    match &rec_parse(&columns).unwrap().class {
        Token::DefColumns(cols) => {
            assert_eq!(cols.len(), 2);
            assert!(matches!(&cols[1].class, Token::DefColumn(n, t, _) if n == "b" && *t == cb));
        }
        _ => panic!("no columns"),
    }
}

#[test]
fn definitions_are_made_of_their_forms() {
    let d = tree(
        Rule::Definition,
        "(defalias b a)",
        vec![
            leaf(Rule::DefinitionKw, "defalias"),
            expr(leaf(Rule::Symbol, "b")),
            expr(leaf(Rule::Symbol, "a")),
        ],
    );
    let r = rec_parse(&d).unwrap();
    assert_eq!((r.src.as_str(), r.lc), ("(defalias b a)", (2, 5)));
    assert!(matches!(&r.class, Token::DefAliases(defs) if defs.len() == 1));
    let bad = tree(
        Rule::Definition,
        "(defalias b)",
        vec![leaf(Rule::DefinitionKw, "defalias"), expr(leaf(Rule::Symbol, "b"))],
    );
    assert_eq!(rec_parse(&bad).err(), Some(Error::Parse));
    assert_eq!(rec_parse(&tree(Rule::Definition, "()", vec![])).err(), Some(Error::Parse));
}

#[test]
fn a_source_is_read_form_after_form() {
    let nodes = vec![
        tree(
            Rule::Definition,
            "(defmodule m)",
            vec![leaf(Rule::DefinitionKw, "defmodule"), expr(leaf(Rule::Symbol, "m"))],
        ),
        expr(leaf(Rule::Symbol, "x")),
        leaf(Rule::Other, ""),
    ];
    let ast = parse_source(&nodes).unwrap();
    assert_eq!(ast.exprs.len(), 2);
    assert!(matches!(&ast.exprs[0].class, Token::DefModule(m) if m == "m"));
    assert!(matches!(&ast.exprs[1].class, Token::Symbol(x) if x == "x"));
    assert_eq!(parse_source(&vec![]).unwrap().exprs.len(), 0);
    let bad = vec![expr(leaf(Rule::Symbol, "x")), leaf(Rule::Integer, "x")];
    assert_eq!(parse_source(&bad).err(), Some(Error::Parse));
}
