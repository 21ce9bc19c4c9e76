use lrparse::grammar::Grammar;
use lrparse::grammar::Sym;
use lrparse::lalrgraph::LALRGraph;
use lrparse::lalrnode::LALRNode;
use lrparse::lr0rule::LR0Rule;
use lrparse::lr0table::LR0Table;
use lrparse::lr1rule::LR1Rule;
use lrparse::lr1table::LR1Table;
use lrparse::lrgraph::LR0Graph;
use lrparse::lrgraph::LR1Graph;
use lrparse::lrnode::LRNodeStruct;
use lrparse::lrtable::Action;
use lrparse::slr1table::SLR1Table;
use lrparse::stackautomata::StackAutomata;

fn build(non_terms: Vec<char>, terms: Vec<char>, rules: Vec<(char, &str)>) -> Grammar {
    let mut g = Grammar::new(non_terms, terms);
    for (l, r) in rules {
        g.add_rule(l, r).unwrap();
    }
    g.finalize();
    g
}

fn lr0_table(g: &Grammar) -> LR0Table {
    let mut graph: LR0Graph = LR0Graph::new();
    graph.construct(LRNodeStruct::<LR0Rule>::default(g), g);
    LR0Table::new(graph, g)
}

fn slr1_table(g: &Grammar) -> SLR1Table {
    let mut graph: LR0Graph = LR0Graph::new();
    graph.construct(LRNodeStruct::<LR0Rule>::default(g), g);
    SLR1Table::new(graph, g)
}

fn lr1_table(g: &Grammar) -> LR1Table {
    let mut graph: LR1Graph = LR1Graph::new();
    graph.construct(LRNodeStruct::<LR1Rule>::default(g), g);
    LR1Table::new(graph, g)
}

fn lr0_has_conflict(t: &LR0Table) -> bool {
    t.action.iter().any(|p| matches!(p.1, Action::Error))
}

fn slr1_has_conflict(t: &SLR1Table) -> bool {
    t.action
        .iter()
        .any(|p| p.1.iter().any(|c| matches!(c.1, Action::Error)))
}

fn lr1_has_conflict(t: &LR1Table) -> bool {
    t.action
        .iter()
        .any(|p| p.1.iter().any(|c| matches!(c.1, Action::Error)))
}

#[test]
fn trivial_grammar_accepts() {
    let g = build(vec!['S', 'A'], vec!['a'], vec![('S', "aA"), ('A', "a")]);
    let t = lr0_table(&g);
    let mut autom = StackAutomata::new(&t, vec!['a', 'a'], &g);
    let r = autom.run();
    assert!(r.is_some());
    assert_eq!(autom.result, vec![1, 0]);
}

#[test]
fn trivial_grammar_rejects_wrong_input() {
    let g = build(vec!['S', 'A'], vec!['a'], vec![('S', "aA"), ('A', "a")]);
    let t = lr0_table(&g);
    let mut autom = StackAutomata::new(&t, vec!['a'], &g);
    assert!(autom.run().is_none());
    // an LR(0) driver accepts as soon as the start production reduces; the
    // cursor then still stands before the unread rest of the input
    let mut autom2 = StackAutomata::new(&t, vec!['a', 'a', 'a'], &g);
    assert!(autom2.run().is_some());
    assert_eq!(autom2.place, 2);
}

#[test]
fn arithmetic_with_end_marker() {
    let g = build(
        vec!['S', 'E', 'T'],
        vec!['(', ')', 'a', '$', '+'],
        vec![('S', "E$"), ('E', "E+T"), ('E', "T"), ('T', "a"), ('T', "(E)")],
    );
    let t = lr0_table(&g);
    assert!(!lr0_has_conflict(&t));
    let mut autom = StackAutomata::new(&t, "a+a$".chars().collect(), &g);
    let r = autom.run();
    assert!(r.is_some());
    assert_eq!(autom.result.last(), Some(&0));
}

#[test]
fn slr_disambiguates_expression_grammar() {
    let g = build(
        vec!['S', 'E', 'T', 'F'],
        vec!['(', ')', 'a', '+', '*'],
        vec![
            ('S', "E"),
            ('E', "E+T"),
            ('E', "T"),
            ('T', "T*F"),
            ('T', "F"),
            ('F', "a"),
            ('F', "(E)"),
        ],
    );
    // the LR(0) table of this grammar has a shift/reduce conflict
    let t0 = lr0_table(&g);
    assert!(lr0_has_conflict(&t0));
    // FOLLOW-keyed reductions resolve it
    let t = slr1_table(&g);
    assert!(!slr1_has_conflict(&t));
    let mut autom = StackAutomata::new(&t, "(a*a+a)*a+a".chars().collect(), &g);
    let r = autom.run();
    assert!(r.is_some());
    assert_eq!(autom.result.last(), Some(&0));
}

#[test]
fn ambiguous_grammar_has_conflict_cell() {
    let g = build(vec!['S'], vec!['a'], vec![('S', "SS"), ('S', "a")]);
    let t = slr1_table(&g);
    assert!(slr1_has_conflict(&t));
}

#[test]
fn canonical_lr1_beats_slr1() {
    // the textbook grammar of assignments: SLR(1) conflicts, LR(1) does not
    let g = build(
        vec!['Z', 'S', 'L', 'R'],
        vec!['=', '*', 'i'],
        vec![('Z', "S"), ('S', "L=R"), ('S', "R"), ('L', "*R"), ('L', "i"), ('R', "L")],
    );
    let ts = slr1_table(&g);
    assert!(slr1_has_conflict(&ts));
    let t = lr1_table(&g);
    assert!(!lr1_has_conflict(&t));
    let mut autom = StackAutomata::new(&t, "i=i".chars().collect(), &g);
    let r = autom.run();
    assert!(r.is_some());
    assert_eq!(autom.result.last(), Some(&0));
    // a lone right-hand side still parses
    let mut autom2 = StackAutomata::new(&t, "*i=*i".chars().collect(), &g);
    assert!(autom2.run().is_some());
}

#[test]
fn table_construction_is_deterministic() {
    let g = build(
        vec!['S', 'E', 'T'],
        vec!['(', ')', 'a', '$', '+'],
        vec![('S', "E$"), ('E', "E+T"), ('E', "T"), ('T', "a"), ('T', "(E)")],
    );
    let t1 = lr0_table(&g);
    let t2 = lr0_table(&g);
    assert_eq!(t1.action, t2.action);
    assert_eq!(t1.goto, t2.goto);
    assert_eq!(t1.syms, t2.syms);
    let s1 = slr1_table(&g);
    let s2 = slr1_table(&g);
    assert_eq!(s1.action, s2.action);
    assert_eq!(s1.goto, s2.goto);
    let l1 = lr1_table(&g);
    let l2 = lr1_table(&g);
    assert_eq!(l1.action, l2.action);
    assert_eq!(l1.goto, l2.goto);
}

#[test]
fn accepted_parses_are_reproducible() {
    let g = build(
        vec!['S', 'E', 'T'],
        vec!['(', ')', 'a', '$', '+'],
        vec![('S', "E$"), ('E', "E+T"), ('E', "T"), ('T', "a"), ('T', "(E)")],
    );
    let t = lr0_table(&g);
    let input: Vec<char> = "(a+a)+a$".chars().collect();
    let mut a1 = StackAutomata::new(&t, input.clone(), &g);
    let r1 = a1.run();
    let mut a2 = StackAutomata::new(&t, input, &g);
    let r2 = a2.run();
    assert!(r1.is_some());
    assert_eq!(r1.is_some(), r2.is_some());
    assert_eq!(a1.result, a2.result);
    assert_eq!(a1.stack, a2.stack);
    assert_eq!(a1.place, a2.place);
}

#[test]
fn graph_states_have_nonempty_kernels() {
    let g = build(
        vec!['S', 'E', 'T'],
        vec!['(', ')', 'a', '$', '+'],
        vec![('S', "E$"), ('E', "E+T"), ('E', "T"), ('T', "a"), ('T', "(E)")],
    );
    let mut graph: LR0Graph = LR0Graph::new();
    graph.construct(LRNodeStruct::<LR0Rule>::default(&g), &g);
    assert!(graph.nodes.len() > 0);
    for n in graph.nodes.iter() {
        assert!(n.base.len() > 0);
    }
    assert_eq!(graph.nodes.len(), graph.edges.len());
    for row in graph.edges.iter() {
        for e in row.iter() {
            assert!(e.1 < graph.nodes.len());
        }
    }
}

#[test]
fn lalr_states_have_distinct_erased_kernels() {
    let g = build(
        vec!['Z', 'S', 'L', 'R'],
        vec!['=', '*', 'i'],
        vec![('Z', "S"), ('S', "L=R"), ('S', "R"), ('L', "*R"), ('L', "i"), ('R', "L")],
    );
    let mut lalr = LALRGraph::new();
    lalr.construct(LALRNode::default(&g), &g);
    // merged states: pairwise distinct LR(0) kernels, and fewer states than
    // the canonical LR(1) graph has
    let mut lr1: LR1Graph = LR1Graph::new();
    lr1.construct(LRNodeStruct::<LR1Rule>::default(&g), &g);
    assert!(lalr.nodes.len() > 0);
    assert!(lalr.nodes.len() <= lr1.nodes.len());
    for i in 0..lalr.nodes.len() {
        for j in 0..lalr.nodes.len() {
            if i != j {
                assert_ne!(lalr.nodes[i], lalr.nodes[j]);
            }
        }
    }
}

#[test]
fn driver_rejects_on_conflict_cell() {
    // the ambiguous grammar rejects as soon as a conflict cell is consulted:
    // a third symbol forces the shift/reduce cell, while two symbols reach
    // acceptance through the clean end-marker column
    let g = build(vec!['S'], vec!['a'], vec![('S', "SS"), ('S', "a")]);
    let t = slr1_table(&g);
    assert!(slr1_has_conflict(&t));
    let mut autom = StackAutomata::new(&t, vec!['a', 'a', 'a'], &g);
    assert!(autom.run().is_none());
    let mut autom2 = StackAutomata::new(&t, vec!['a', 'a'], &g);
    assert!(autom2.run().is_some());
}

#[test]
fn reduce_by_each_production_appears_in_trace() {
    let g = build(
        vec!['S', 'E', 'T'],
        vec!['(', ')', 'a', '$', '+'],
        vec![('S', "E$"), ('E', "E+T"), ('E', "T"), ('T', "a"), ('T', "(E)")],
    );
    let t = lr0_table(&g);
    let mut autom = StackAutomata::new(&t, "(a+a)+a$".chars().collect(), &g);
    assert!(autom.run().is_some());
    for p in [0usize, 1, 2, 3, 4] {
        assert!(autom.result.contains(&p));
    }
}

#[test]
fn lr1_accept_at_one_end_marker_cell() {
    let g = build(
        vec!['Z', 'S', 'L', 'R'],
        vec!['=', '*', 'i'],
        vec![('Z', "S"), ('S', "L=R"), ('S', "R"), ('L', "*R"), ('L', "i"), ('R', "L")],
    );
    let t = lr1_table(&g);
    let mut accepts = 0;
    for (_, cells) in t.action.iter() {
        for (k, a) in cells.iter() {
            if matches!(a, Action::Accept) {
                assert_eq!(*k, Sym::Eps);
                accepts += 1;
            }
        }
    }
    assert_eq!(accepts, 1);
}
