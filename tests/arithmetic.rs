use parsekit::grammar::{Element, Error, NonTerminal, ProdBlock, Production, Terminal, CFG};
use parsekit::indexed::{compile, Grammar};
use parsekit::left_recursion::{eliminate_direct_left_recursion, eliminate_left_recursion};
use parsekit::ll1;
use parsekit::lr1;
use parsekit::sets::{first, follow, predict};

fn t(s: &str) -> Element {
    Element::T(Terminal::new(s))
}

fn n(s: &str) -> Element {
    Element::NT(NonTerminal::new(s))
}

fn block(left: &str, rhss: Vec<Vec<Element>>) -> ProdBlock {
    let prods = rhss
        .into_iter()
        .map(|r| Production::new(NonTerminal::new(left), r))
        .collect();
    ProdBlock::new(NonTerminal::new(left), prods)
}

fn grammar(nts: &[&str], ts: &[&str], blocks: Vec<ProdBlock>) -> Result<CFG, Error> {
    CFG::new(
        NonTerminal::new(nts[0]),
        nts.iter().map(|s| NonTerminal::new(s)).collect(),
        ts.iter().map(|s| Terminal::new(s)).collect(),
        blocks,
    )
}

fn g0() -> CFG {
    grammar(
        &["Goal", "Expr", "Term", "Factor"],
        &["+", "-", "*", "/", "(", ")", "num", "name"],
        vec![
            block("Goal", vec![vec![n("Expr")]]),
            block(
                "Expr",
                vec![
                    vec![n("Expr"), t("+"), n("Term")],
                    vec![n("Expr"), t("-"), n("Term")],
                    vec![n("Term")],
                ],
            ),
            block(
                "Term",
                vec![
                    vec![n("Term"), t("*"), n("Factor")],
                    vec![n("Term"), t("/"), n("Factor")],
                    vec![n("Factor")],
                ],
            ),
            block(
                "Factor",
                vec![vec![t("("), n("Expr"), t(")")], vec![t("num")], vec![t("name")]],
            ),
        ],
    )
    .unwrap()
}

fn tokens(s: &str) -> Vec<Terminal> {
    s.split_whitespace().map(Terminal::new).collect()
}

fn render(cfg: &CFG) -> Vec<String> {
    let mut out = vec![];
    for b in &cfg.productions {
        for p in &b.productions {
            out.push(p.text());
        }
    }
    out
}

/// Names of the columns set in `row`, sorted.
fn names(cfg: &CFG, row: &[bool]) -> Vec<String> {
    let n_t = cfg.terminals.len();
    let mut out = vec![];
    for (c, set) in row.iter().enumerate() {
        if *set {
            out.push(if c < n_t {
                cfg.terminals[c].name().clone()
            } else if c == n_t {
                "eof@@".to_string()
            } else {
                "empty@@".to_string()
            });
        }
    }
    out.sort();
    out
}

fn nt_index(cfg: &CFG, name: &str) -> usize {
    cfg.non_terminals.iter().position(|x| x.name() == name).unwrap()
}

fn sorted(v: &[&str]) -> Vec<String> {
    let mut v: Vec<String> = v.iter().map(|s| s.to_string()).collect();
    v.sort();
    v
}

fn eliminated_g0() -> (CFG, Grammar) {
    let e = eliminate_left_recursion(g0()).unwrap();
    let cfg = e.cfg().clone();
    let g = compile(&cfg).unwrap();
    (cfg, g)
}

#[test]
fn fork_appends_mark() {
    assert_eq!(NonTerminal::new("Expr").fork().name(), "Expr@");
    assert_eq!(NonTerminal::new("Expr").fork().fork().name(), "Expr@@");
}

#[test]
fn eliminated_arithmetic_grammar() {
    let e = eliminate_left_recursion(g0()).unwrap();
    let cfg = e.cfg();
    let nts: Vec<String> = cfg.non_terminals.iter().map(|x| x.name().clone()).collect();
    assert_eq!(nts, vec!["Goal", "Expr", "Term", "Factor", "Expr@", "Term@"]);
    assert_eq!(
        render(cfg),
        vec![
            "Goal -> Expr",
            "Expr -> Term Expr@",
            "Term -> Factor Term@",
            "Factor -> ( Expr )",
            "Factor -> num",
            "Factor -> name",
            "Expr@ -> + Term Expr@",
            "Expr@ -> - Term Expr@",
            "Expr@ -> empty@@",
            "Term@ -> * Factor Term@",
            "Term@ -> / Factor Term@",
            "Term@ -> empty@@",
        ]
    );
}

#[test]
fn indirect_recursion_is_substituted() {
    // A -> B x | y ; B -> A z | w  becomes B -> y z B@ | w B@ ; B@ -> x z B@ | ε
    let cfg = grammar(
        &["A", "B"],
        &["x", "y", "z", "w"],
        vec![
            block("A", vec![vec![n("B"), t("x")], vec![t("y")]]),
            block("B", vec![vec![n("A"), t("z")], vec![t("w")]]),
        ],
    )
    .unwrap();
    let e = eliminate_left_recursion(cfg).unwrap();
    assert_eq!(
        render(e.cfg()),
        vec![
            "A -> B x",
            "A -> y",
            "B -> y z B@",
            "B -> w B@",
            "B@ -> x z B@",
            "B@ -> empty@@",
        ]
    );
}

#[test]
fn all_left_recursive_is_an_error() {
    let cfg = grammar(&["A"], &["x"], vec![block("A", vec![vec![n("A"), t("x")]])]).unwrap();
    assert!(matches!(eliminate_left_recursion(cfg), Err(Error::AllLeftRecursive)));
    let b = block("A", vec![vec![n("A"), t("x")]]);
    assert!(matches!(eliminate_direct_left_recursion(b), Err(Error::AllLeftRecursive)));
}

#[test]
fn direct_elimination_without_recursion_keeps_block() {
    let b = block("A", vec![vec![t("x")], vec![t("y")]]);
    let (l, r) = eliminate_direct_left_recursion(b).unwrap();
    assert!(r.is_none());
    assert_eq!(l.productions.len(), 2);
}

#[test]
fn malformed_grammars_are_rejected() {
    // unknown symbol on a right-hand side
    let r = grammar(&["A"], &["x"], vec![block("A", vec![vec![t("y")]])]);
    assert!(matches!(r, Err(Error::GrammarMalformed)));
    // reserved names
    let r = grammar(&["A"], &["eof@@"], vec![block("A", vec![vec![t("eof@@")]])]);
    assert!(matches!(r, Err(Error::GrammarMalformed)));
    let r = grammar(&["A@"], &["x"], vec![block("A@", vec![vec![t("x")]])]);
    assert!(matches!(r, Err(Error::GrammarMalformed)));
    // repeated production
    let r = grammar(&["A"], &["x"], vec![block("A", vec![vec![t("x")], vec![t("x")]])]);
    assert!(matches!(r, Err(Error::GrammarMalformed)));
    // repeated terminal
    let r = grammar(&["A"], &["x", "x"], vec![block("A", vec![vec![t("x")]])]);
    assert!(matches!(r, Err(Error::GrammarMalformed)));
    // zero-length right-hand side (the empty string is written [Empty])
    let r = grammar(&["A"], &["x"], vec![block("A", vec![vec![t("x")], vec![]])]);
    assert!(matches!(r, Err(Error::GrammarMalformed)));
    // block not aligned with its non-terminal
    let r = grammar(&["A"], &["x"], vec![block("B", vec![vec![t("x")]])]);
    assert!(matches!(r, Err(Error::GrammarMalformed)));
}

#[test]
fn first_sets_of_arithmetic_grammar() {
    let (cfg, g) = eliminated_g0();
    let f = first(&g);
    for nt in ["Goal", "Expr", "Term", "Factor"] {
        assert_eq!(names(&cfg, &f[nt_index(&cfg, nt)]), sorted(&["(", "name", "num"]));
    }
    assert_eq!(names(&cfg, &f[nt_index(&cfg, "Expr@")]), sorted(&["+", "-", "empty@@"]));
    assert_eq!(names(&cfg, &f[nt_index(&cfg, "Term@")]), sorted(&["*", "/", "empty@@"]));
}

#[test]
fn follow_sets_of_arithmetic_grammar() {
    let (cfg, g) = eliminated_g0();
    let f = first(&g);
    let fo = follow(&g, &f);
    assert_eq!(names(&cfg, &fo[nt_index(&cfg, "Goal")]), sorted(&["eof@@"]));
    for nt in ["Expr", "Expr@"] {
        assert_eq!(names(&cfg, &fo[nt_index(&cfg, nt)]), sorted(&["eof@@", ")"]));
    }
    for nt in ["Term", "Term@"] {
        assert_eq!(names(&cfg, &fo[nt_index(&cfg, nt)]), sorted(&["eof@@", "+", "-", ")"]));
    }
    assert_eq!(
        names(&cfg, &fo[nt_index(&cfg, "Factor")]),
        sorted(&["eof@@", "+", "-", "*", "/", ")"])
    );
}

#[test]
fn predict_sets_of_arithmetic_grammar() {
    let (cfg, g) = eliminated_g0();
    let f = first(&g);
    let fo = follow(&g, &f);
    let p = predict(&g, &f, &fo);
    let e = nt_index(&cfg, "Expr@");
    assert_eq!(names(&cfg, &p[e][0]), sorted(&["+"]));
    assert_eq!(names(&cfg, &p[e][1]), sorted(&["-"]));
    assert_eq!(names(&cfg, &p[e][2]), sorted(&["eof@@", ")"]));
    // no PREDICT set holds the empty string, and the sets of one non-terminal are disjoint
    for a in 0..p.len() {
        for i in 0..p[a].len() {
            assert!(!p[a][i][g.n_terminals + 1]);
            for j in 0..p[a].len() {
                if i != j {
                    for c in 0..=g.n_terminals {
                        assert!(!(p[a][i][c] && p[a][j][c]));
                    }
                }
            }
        }
    }
}

#[test]
fn empty_string_in_first_comes_from_a_production() {
    let (cfg, g) = eliminated_g0();
    let f = first(&g);
    for a in 0..f.len() {
        if f[a][g.n_terminals + 1] {
            let name = cfg.non_terminals[a].name();
            assert!(name == "Expr@" || name == "Term@");
            assert!(cfg.productions[a].productions.iter().any(|p| matches!(p.right[..], [Element::Empty])));
        }
    }
}

fn ll(input: &str) -> Result<(), ll1::Error> {
    let e = eliminate_left_recursion(g0()).unwrap();
    ll1::parse(&tokens(input), &e)
}

fn lr(input: &str) -> Result<(), lr1::Error> {
    lr1::parse(&tokens(input), &g0())
}

#[test]
fn ll1_accepts_sum() {
    assert!(ll("name + num").is_ok());
}

#[test]
fn ll1_accepts_parenthesised_product() {
    assert!(ll("( name - num ) * name").is_ok());
}

#[test]
fn ll1_rejects_dangling_operator() {
    assert_eq!(ll("name +"), Err(ll1::Error::ParseReject { position: 2 }));
}

#[test]
fn ll1_rejects_unclosed_parenthesis() {
    assert_eq!(ll("( name"), Err(ll1::Error::ParseReject { position: 2 }));
}

#[test]
fn ll1_rejects_adjacent_operands() {
    assert_eq!(ll("num num"), Err(ll1::Error::ParseReject { position: 1 }));
}

#[test]
fn ll1_rejects_empty_input() {
    assert_eq!(ll(""), Err(ll1::Error::ParseReject { position: 0 }));
}

#[test]
fn ll1_rejects_unknown_token() {
    assert_eq!(ll("name % num"), Err(ll1::Error::ParseReject { position: 1 }));
}

#[test]
fn lr1_accepts_sum() {
    assert!(lr("name + num").is_ok());
}

#[test]
fn lr1_accepts_parenthesised_product() {
    assert!(lr("( name - num ) * name").is_ok());
}

#[test]
fn lr1_rejects_dangling_operator() {
    assert!(matches!(lr("name +"), Err(lr1::Error::ParseReject { position: 2, .. })));
}

#[test]
fn lr1_rejects_unclosed_parenthesis() {
    assert!(matches!(lr("( name"), Err(lr1::Error::ParseReject { position: 2, .. })));
}

#[test]
fn lr1_rejects_adjacent_operands() {
    assert!(matches!(lr("num num"), Err(lr1::Error::ParseReject { position: 1, .. })));
}

#[test]
fn lr1_rejects_empty_input() {
    assert!(matches!(lr(""), Err(lr1::Error::ParseReject { position: 0, .. })));
}

#[test]
fn recognizers_leave_tables_unchanged() {
    let e = eliminate_left_recursion(g0()).unwrap();
    let table = ll1::contruct_talbe(&e).unwrap();
    let before = table.cells.clone();
    let input = tokens("( name - num ) * name");
    assert!(table.recognize(&input).is_ok());
    assert!(table.recognize(&input).is_ok());
    assert_eq!(table.cells, before);
    let t = lr1::build_action_and_goto_table(&g0()).unwrap();
    let before = t.action.clone();
    assert!(t.recognize(&input).is_ok());
    assert_eq!(t.recognize(&tokens("num num")), t.recognize(&tokens("num num")));
    assert_eq!(t.action, before);
}

#[test]
fn lr1_action_cells_hold_one_entry() {
    let t = lr1::build_action_and_goto_table(&g0()).unwrap();
    assert_eq!(t.action.len(), t.states.len());
    // the first state shifts on '(' , num and name and nothing else
    let row = &t.action[0];
    let shifts: Vec<usize> = (0..row.len()).filter(|c| matches!(row[*c], Some(lr1::Action::Shift(_)))).collect();
    assert_eq!(shifts, vec![4, 6, 7]);
    // some state accepts at end of input
    assert!(t.action.iter().any(|r| r[8] == Some(lr1::Action::Accept)));
}

#[test]
fn predict_conflict_is_reported() {
    let cfg = grammar(&["A"], &["x", "y"], vec![block("A", vec![vec![t("x")], vec![t("x"), t("y")]])]).unwrap();
    let e = eliminate_left_recursion(cfg).unwrap();
    assert!(matches!(
        ll1::contruct_talbe(&e),
        Err(ll1::Error::PredictConflict { non_terminal: 0, terminal: 0, first: 0, second: 1 })
    ));
}

#[test]
fn shift_reduce_conflict_is_reported() {
    let cfg = grammar(
        &["E"],
        &["+", "id"],
        vec![block("E", vec![vec![n("E"), t("+"), n("E")], vec![t("id")]])],
    )
    .unwrap();
    match lr1::build_action_and_goto_table(&cfg) {
        Err(lr1::Error::ShiftReduceConflict { terminal: 0, first, second, .. }) => {
            let kinds = (first, second);
            assert!(matches!(kinds, (lr1::Action::Shift(_), lr1::Action::Reduce(0, 0)) | (lr1::Action::Reduce(0, 0), lr1::Action::Shift(_))));
        },
        _ => panic!("expected a shift/reduce conflict"),
    }
}

#[test]
fn reduce_reduce_conflict_is_reported() {
    let cfg = grammar(
        &["S", "A", "B"],
        &["x"],
        vec![
            block("S", vec![vec![n("A")], vec![n("B")]]),
            block("A", vec![vec![t("x")]]),
            block("B", vec![vec![t("x")]]),
        ],
    )
    .unwrap();
    assert!(matches!(
        lr1::build_action_and_goto_table(&cfg),
        Err(lr1::Error::ReduceReduceConflict {
            terminal: 1,
            first: lr1::Action::Reduce(1, 0),
            second: lr1::Action::Reduce(2, 0),
            ..
        })
    ));
}

#[test]
fn lr1_handles_empty_productions() {
    // S -> a S b | ε
    let cfg = grammar(
        &["S"],
        &["a", "b"],
        vec![block("S", vec![vec![t("a"), n("S"), t("b")], vec![Element::Empty]])],
    )
    .unwrap();
    assert!(lr1::parse(&tokens("a a b b"), &cfg).is_ok());
    assert!(lr1::parse(&tokens(""), &cfg).is_ok());
    assert!(matches!(lr1::parse(&tokens("a b b"), &cfg), Err(lr1::Error::ParseReject { position: 2, .. })));
    let e = eliminate_left_recursion(cfg).unwrap();
    assert!(ll1::parse(&tokens("a a b b"), &e).is_ok());
    assert_eq!(ll1::parse(&tokens("a b b"), &e), Err(ll1::Error::ParseReject { position: 2 }));
}

#[test]
fn malformed_grammar_is_reported_by_builders() {
    let cfg = CFG {
        start: NonTerminal::new("A"),
        non_terminals: vec![NonTerminal::new("A")],
        terminals: vec![],
        productions: vec![block("A", vec![vec![t("x")]])],
    };
    assert!(matches!(lr1::build_action_and_goto_table(&cfg), Err(lr1::Error::GrammarMalformed)));
    let e = eliminate_left_recursion(cfg).unwrap();
    assert!(matches!(ll1::contruct_talbe(&e), Err(ll1::Error::GrammarMalformed)));
}

#[test]
fn elimination_keeps_the_language_on_short_inputs() {
    let e = eliminate_left_recursion(g0()).unwrap();
    let ll_table = ll1::contruct_talbe(&e).unwrap();
    let lr_tables = lr1::build_action_and_goto_table(&g0()).unwrap();
    let alphabet = ["name", "+", "*", "(", ")"];
    let mut frontier: Vec<Vec<&str>> = vec![vec![]];
    let mut accepted = 0;
    for _ in 0..=5 {
        let mut next = vec![];
        for word in &frontier {
            let input: Vec<Terminal> = word.iter().map(|s| Terminal::new(s)).collect();
            let by_ll = ll_table.recognize(&input).is_ok();
            let by_lr = lr_tables.recognize(&input).is_ok();
            assert_eq!(by_ll, by_lr, "{:?}", word);
            if by_ll {
                accepted += 1;
            }
            for s in alphabet {
                let mut w = word.clone();
                w.push(s);
                next.push(w);
            }
        }
        frontier = next;
    }
    assert!(accepted > 10);
}

#[test]
fn production_text_uses_reserved_names() {
    let p = Production::new(NonTerminal::new("Expr@"), vec![t("+"), n("Term"), n("Expr@")]);
    assert_eq!(p.text(), "Expr@ -> + Term Expr@");
    let e = Production::new(NonTerminal::new("Expr@"), vec![Element::Empty]);
    assert_eq!(e.text(), "Expr@ -> empty@@");
    assert_eq!(Element::Empty.text(), "empty@@");
}

#[test]
fn terminals_compare_by_name() {
    assert_eq!(Terminal::new("num"), Terminal::new("num"));
    assert_ne!(Terminal::new("num"), Terminal::new("name"));
    assert_eq!(NonTerminal::new("Expr").fork(), NonTerminal::new("Expr@"));
    assert_ne!(NonTerminal::new("Expr"), NonTerminal::new("Expr@"));
}

#[test]
fn lr1_states_are_reached_in_order() {
    let t = lr1::build_action_and_goto_table(&g0()).unwrap();
    for j in 1..t.states.len() {
        assert!(!t.states[j].is_empty());
        let first_parent = (0..t.states.len())
            .find(|i| t.transfer[*i].iter().any(|x| *x == Some(j)))
            .unwrap();
        assert!(first_parent < j);
        if j > 1 {
            let prev = (0..t.states.len())
                .find(|i| t.transfer[*i].iter().any(|x| *x == Some(j - 1)))
                .unwrap();
            assert!(prev <= first_parent);
        }
    }
}

#[test]
fn predict_conflict_reported_first_in_order() {
    // B has the earlier conflict on y; A's on x comes first by non-terminal order
    let cfg = grammar(
        &["A", "B"],
        &["x", "y"],
        vec![
            block("A", vec![vec![t("x"), n("B")], vec![t("x")]]),
            block("B", vec![vec![t("y")], vec![t("y"), t("x")]]),
        ],
    )
    .unwrap();
    let e = eliminate_left_recursion(cfg).unwrap();
    assert_eq!(
        ll1::contruct_talbe(&e).err(),
        Some(ll1::Error::PredictConflict { non_terminal: 0, terminal: 0, first: 0, second: 1 })
    );
}
