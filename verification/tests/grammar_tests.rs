use lrparse::grammar::Grammar;
use lrparse::grammar::Sym;
use lrparse::lalrnode::LALRNode;
use lrparse::lr0rule::LR0Rule;
use lrparse::lr1rule::LR1Rule;
use lrparse::lrnode::LRNodeStruct;
use lrparse::rule::LRRule;

fn dummy_gramm() -> Grammar {
    let mut g = Grammar::new(vec!['S', 'A'], vec!['a']);
    add_rules(&mut g, vec![('S', "aA"), ('A', "a")]).unwrap();
    g
}

fn add_rules(g: &mut Grammar, rules: Vec<(char, &str)>) -> Result<(), &'static str> {
    for r in rules {
        g.add_rule(r.0, r.1)?;
    }
    Ok(())
}

#[test]
fn grammar_basic() {
    let mut g = dummy_gramm();
    let tmp = add_rules(&mut g, vec![('S', "aA"), ('A', "a")]);
    assert!(tmp.is_ok());
    let tmp = add_rules(&mut g, vec![('S', "aA"), ('A', "g")]);
    assert!(tmp.is_err());
}

#[test]
fn mod_basic() {
    let mut g = dummy_gramm();
    let tmp = add_rules(&mut g, vec![('S', "aA"), ('A', "a")]);
    assert!(tmp.is_ok());
    let tmp = add_rules(&mut g, vec![('S', "aA"), ('A', "g")]);
    assert!(tmp.is_err());
}

#[test]
fn eq_test() {
    let mut g1 = Grammar::new(vec!['S', 'A'], vec!['a']);
    g1.add_rule('S', "A").unwrap();
    g1.add_rule('A', "a").unwrap();
    let left = LALRNode::new(vec![LR1Rule::new(0, 0, Sym::Eps)], 'S');
    let right = LALRNode::new(vec![LR1Rule::new(0, 0, Sym::Normal('a'))], 'S');
    let different = LALRNode::new(
        vec![LR1Rule::new(0, 0, Sym::Normal('a')), LR1Rule::new(0, 1, Sym::Normal('a'))],
        'S',
    );

    assert_eq!(left, right);
    assert_eq!(right, left);
    assert_ne!(different, right);
    assert_ne!(left, different);
}

#[test]
fn union_test() {
    let mut g1 = Grammar::new(vec!['S', 'A'], vec!['a']);
    g1.add_rule('S', "A").unwrap();
    g1.add_rule('A', "a").unwrap();
    let left = LALRNode::new(vec![LR1Rule::new(0, 0, Sym::Eps)], 'S');
    let right = LALRNode::new(vec![LR1Rule::new(0, 0, Sym::Normal('a'))], 'S');
    let (res, conti) = left.union_nodes(&right);
    assert!(conti);
    assert!(res.base().contains(&LR1Rule::new(0, 0, Sym::Normal('a'))));
    assert!(res.base().contains(&LR1Rule::new(0, 0, Sym::Eps)));
    assert_eq!(res.base().len(), 2);
}

fn test_closure(rules: Vec<LR0Rule>, closure: Vec<LR0Rule>, gramm: &Grammar) {
    let mut lr0node: LRNodeStruct<LR0Rule> = LRNodeStruct::new(rules, 'X');
    lr0node.create_closure(gramm);
    println!("{:?}", lr0node.closure);
    for r in closure {
        assert!(lr0node.closure.contains(&r));
    }
}

#[test]
fn lr0node_test_create_closure() {
    let mut g1 = Grammar::new(vec!['S', 'A'], vec!['a']);
    g1.add_rule('S', "A").unwrap();
    g1.add_rule('A', "a").unwrap();

    test_closure(vec![LR0Rule::new(0, 0)], vec![LR0Rule::new(1, 0)], &g1);

    let mut g2 = Grammar::new(vec!['S', 'A'], vec!['a']);
    g2.add_rule('S', "A").unwrap();
    g2.add_rule('A', "a").unwrap();
    g2.add_rule('A', "aA").unwrap();

    test_closure(
        vec![LR0Rule::new(0, 0)],
        vec![LR0Rule::new(1, 0), LR0Rule::new(2, 0)],
        &g2,
    );

    let mut g3 = Grammar::new(vec!['S', 'A', 'B'], vec!['a']);
    g3.add_rule('S', "A").unwrap();
    g3.add_rule('A', "a").unwrap();
    g3.add_rule('A', "aA").unwrap();
    g3.add_rule('A', "BA").unwrap();
    g3.add_rule('B', "a").unwrap();

    test_closure(
        vec![LR0Rule::new(0, 0)],
        vec![
            LR0Rule::new(1, 0),
            LR0Rule::new(2, 0),
            LR0Rule::new(3, 0),
            LR0Rule::new(4, 0),
        ],
        &g3,
    );

    let mut g4 = Grammar::new(vec!['S', 'A', 'B', 'C'], vec!['a']);
    g4.add_rule('S', "A").unwrap();
    g4.add_rule('A', "a").unwrap();
    g4.add_rule('A', "aA").unwrap();
    g4.add_rule('A', "BA").unwrap();
    g4.add_rule('B', "a").unwrap();
    g4.add_rule('C', "a").unwrap();

    test_closure(
        vec![LR0Rule::new(0, 0)],
        vec![
            LR0Rule::new(1, 0),
            LR0Rule::new(2, 0),
            LR0Rule::new(3, 0),
            LR0Rule::new(4, 0),
        ],
        &g4,
    );

    let mut g = Grammar::new(vec!['S', 'E', 'T'], vec!['(', ')', 'a', '$', '+']);
    g.add_rule('S', "E$").unwrap();
    g.add_rule('E', "E+T").unwrap();
    g.add_rule('E', "T").unwrap();
    g.add_rule('T', "a").unwrap();
    g.add_rule('T', "(E)").unwrap();

    test_closure(
        vec![LR0Rule::new(0, 0)],
        vec![
            LR0Rule::new(1, 0),
            LR0Rule::new(2, 0),
            LR0Rule::new(3, 0),
            LR0Rule::new(4, 0),
        ],
        &g,
    );
}

fn test_steps(base: Vec<LR0Rule>, syms: Vec<char>, gramm: &Grammar) {
    let mut lr0node: LRNodeStruct<LR0Rule> = LRNodeStruct::new(base, 'X');
    lr0node.create_closure(gramm);
    let gen_syms = lr0node.get_steps(gramm);

    assert_eq!(gen_syms.len(), syms.len());
    for c in syms {
        assert!(gen_syms.iter().any(|p| p.0 == c));
    }
}

#[test]
fn lr0node_test_get_steps() {
    let mut g1 = Grammar::new(vec!['S', 'A'], vec!['a']);
    g1.add_rule('S', "A").unwrap();
    g1.add_rule('A', "a").unwrap();

    test_steps(vec![LR0Rule::new(0, 0)], vec!['A', 'a'], &g1);

    let mut g2 = Grammar::new(vec!['S', 'A'], vec!['a']);
    g2.add_rule('S', "A").unwrap();
    g2.add_rule('A', "a").unwrap();
    g2.add_rule('A', "aA").unwrap();
    test_steps(vec![LR0Rule::new(0, 0)], vec!['A', 'a'], &g2);

    let mut g3 = Grammar::new(vec!['S', 'A', 'B'], vec!['a']);
    g3.add_rule('S', "A").unwrap();
    g3.add_rule('A', "a").unwrap();
    g3.add_rule('A', "aA").unwrap();
    g3.add_rule('A', "BA").unwrap();
    g3.add_rule('B', "a").unwrap();
    test_steps(vec![LR0Rule::new(0, 0)], vec!['A', 'a', 'B'], &g3);

    let mut g4 = Grammar::new(vec!['S', 'A', 'B', 'C'], vec!['a']);
    g4.add_rule('S', "A").unwrap();
    g4.add_rule('A', "a").unwrap();
    g4.add_rule('A', "aA").unwrap();
    g4.add_rule('A', "BA").unwrap();
    g4.add_rule('B', "a").unwrap();
    g4.add_rule('C', "a").unwrap();
    test_steps(vec![LR0Rule::new(0, 0)], vec!['A', 'a', 'B'], &g4);

    let mut g = Grammar::new(vec!['S', 'E', 'T'], vec!['(', ')', 'a', '$', '+']);
    g.add_rule('S', "E$").unwrap();
    g.add_rule('E', "E+T").unwrap();
    g.add_rule('E', "T").unwrap();
    g.add_rule('T', "a").unwrap();
    g.add_rule('T', "(E)").unwrap();

    test_steps(vec![LR0Rule::new(0, 0)], vec!['E', 'a', '(', 'T'], &g);
    test_steps(vec![LR0Rule::new(1, 2)], vec!['a', '(', 'T'], &g);
}

#[test]
fn lr0rule_test_get_sym() {
    let g = dummy_gramm();

    assert_eq!(LR0Rule::new(0, 0).get_sym(&g), Some('a'));
    assert_eq!(LR0Rule::new(4, 0).get_sym(&g), None);
    assert_eq!(LR0Rule::new(0, 1).get_sym(&g), Some('A'));
    assert_eq!(LR0Rule::new(1, 0).get_sym(&g), Some('a'));
    assert_eq!(LR0Rule::new(1, 1).get_sym(&g), None);
}

#[test]
fn add_rule_rejects_unknown_symbols() {
    let mut g = Grammar::new(vec!['S'], vec!['a']);
    assert_eq!(g.add_rule('a', "a"), Err("left must be non terminal"));
    assert_eq!(
        g.add_rule('S', "ax"),
        Err("right must contain only terminals and non terminals")
    );
    assert_eq!(g.add_rule('S', "aS"), Ok(()));
}

#[test]
fn first_sets_are_terminals() {
    let mut g = Grammar::new(vec!['S', 'E', 'T'], vec!['(', ')', 'a', '$', '+']);
    g.add_rule('S', "E$").unwrap();
    g.add_rule('E', "E+T").unwrap();
    g.add_rule('E', "T").unwrap();
    g.add_rule('T', "a").unwrap();
    g.add_rule('T', "(E)").unwrap();
    g.finalize();
    for p in 0..5 {
        let f = g.first(p).unwrap();
        assert!(!f.is_empty());
        for s in f.iter() {
            match s {
                Sym::Normal(c) => assert!(g.terms.contains(c)),
                Sym::Eps => {}
            }
        }
    }
    // FIRST of every production here starts with a concrete terminal
    assert!(g.first(0).unwrap().contains(&Sym::Normal('a')));
    assert!(g.first(0).unwrap().contains(&Sym::Normal('(')));
    assert_eq!(g.first(3).unwrap().as_slice(), &[Sym::Normal('a')]);
    assert_eq!(g.first(4).unwrap().as_slice(), &[Sym::Normal('(')]);
}

#[test]
fn follow_sets_are_terminals_and_end_marker() {
    let mut g = Grammar::new(vec!['S', 'E', 'T'], vec!['(', ')', 'a', '$', '+']);
    g.add_rule('S', "E$").unwrap();
    g.add_rule('E', "E+T").unwrap();
    g.add_rule('E', "T").unwrap();
    g.add_rule('T', "a").unwrap();
    g.add_rule('T', "(E)").unwrap();
    g.finalize();
    // the end-marker follows the start nonterminal
    assert!(g.follow('S').contains(&Sym::Eps));
    for n in ['S', 'E', 'T'] {
        for s in g.follow(n).iter() {
            match s {
                Sym::Normal(c) => assert!(g.terms.contains(c)),
                Sym::Eps => {}
            }
        }
    }
    assert!(g.follow('E').contains(&Sym::Normal('+')));
    assert!(g.follow('E').contains(&Sym::Normal('$')));
    assert!(g.follow('E').contains(&Sym::Normal(')')));
    assert!(g.follow('T').contains(&Sym::Normal('+')));
}

#[test]
fn follow_propagates_through_vanishing_tails() {
    // S -> AB, A -> a | (empty), B -> b: what can start B can follow A
    let mut g = Grammar::new(vec!['S', 'A', 'B'], vec!['a', 'b']);
    g.add_rule('S', "AB").unwrap();
    g.add_rule('A', "a").unwrap();
    g.add_rule('A', "").unwrap();
    g.add_rule('B', "b").unwrap();
    g.finalize();
    assert!(g.follow('A').contains(&Sym::Normal('b')));
    // the vanishing production makes FIRST(S) include b as well
    assert!(g.first(0).unwrap().contains(&Sym::Normal('a')));
    assert!(g.first(0).unwrap().contains(&Sym::Normal('b')));
}

#[test]
fn get_chars_splits_single_characters() {
    assert_eq!(
        lrparse::loader::get_chars(&String::from("a b c")),
        Ok(vec!['a', 'b', 'c'])
    );
    assert_eq!(lrparse::loader::get_chars(&String::from("S")), Ok(vec!['S']));
    assert!(lrparse::loader::get_chars(&String::from("ab")).is_err());
    assert!(lrparse::loader::get_chars(&String::from("")).is_err());
    assert!(lrparse::loader::get_chars(&String::from("a  b")).is_err());
    assert!(lrparse::loader::get_chars(&String::from("a b ")).is_err());
}

#[test]
fn parse_rule_line_splits_productions() {
    assert_eq!(
        lrparse::loader::parse_rule_line(&String::from("E->E+T")),
        Ok(Some(('E', vec!['E', '+', 'T'])))
    );
    assert_eq!(
        lrparse::loader::parse_rule_line(&String::from("A->")),
        Ok(Some(('A', vec![])))
    );
    assert_eq!(lrparse::loader::parse_rule_line(&String::from("")), Ok(None));
    assert!(lrparse::loader::parse_rule_line(&String::from("AB->c")).is_err());
    assert!(lrparse::loader::parse_rule_line(&String::from("A->b->c")).is_err());
    assert!(lrparse::loader::parse_rule_line(&String::from("A")).is_err());
}
