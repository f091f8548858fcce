use base64::Engine;
use slr_tables::args::{decode_base_64, Args, InputType, OutputType};
use slr_tables::automaton::get_parsing_automaton;
use slr_tables::first_follow::FirstFollowSet;
use slr_tables::grammar::{Grammar, Production};
use slr_tables::latex::{generate_parsing_table_latex, LatexFormatOutputFormatDescriptor};
use slr_tables::lr0::Lr0Item;
use slr_tables::parser::{create_grammar_from_str, GrammarDecodeError};
use slr_tables::table::{Action, TableRow};

fn grammar(text: &str) -> Grammar {
    create_grammar_from_str(&text.to_string()).expect("grammar should parse")
}

fn sorted(v: &[char]) -> Vec<char> {
    let mut v = v.to_vec();
    v.sort();
    v
}

fn row<'a>(ff: &'a [(char, FirstFollowSet)], x: char) -> &'a FirstFollowSet {
    &ff.iter().find(|(c, _)| *c == x).expect("nonterminal row").1
}

fn cell<'a>(t: &'a [TableRow], s: usize, x: char) -> &'a Vec<Action> {
    &t[s].iter().find(|(c, _)| *c == x).expect("column").1
}

const EXPR: &str = "E -> E + T | T .\nT -> T * F | F .\nF -> ( E ) | i .";

#[test]
fn expression_grammar_symbols() {
    let g = grammar(EXPR);
    assert_eq!(sorted(&g.terms), sorted(&['+', '*', '(', ')', 'i']));
    assert_eq!(sorted(&g.non_terms), sorted(&['E', 'T', 'F']));
    assert_eq!(g.productions.len(), 6);
}

#[test]
fn expression_grammar_first_follow() {
    let g = grammar(EXPR);
    let ff = g.get_first_follow_table();
    for x in ['E', 'T', 'F'] {
        assert!(!row(&ff, x).nullable);
        assert_eq!(sorted(&row(&ff, x).first), sorted(&['(', 'i']));
    }
    assert_eq!(sorted(&row(&ff, 'E').follow), sorted(&['+', ')', '$']));
    assert_eq!(sorted(&row(&ff, 'T').follow), sorted(&['+', '*', ')', '$']));
    assert_eq!(sorted(&row(&ff, 'F').follow), sorted(&['+', '*', ')', '$']));
}

#[test]
fn expression_grammar_twelve_states() {
    let g = grammar(EXPR);
    let a = get_parsing_automaton(&g);
    assert_eq!(a.nodes.len(), 12);
    assert_eq!(g.get_lr0_parsing_table().len(), 12);
}

#[test]
fn expression_grammar_slr1_conflict_free() {
    let g = grammar(EXPR);
    let t = g.get_slr1_parsing_table(None, None);
    for r in &t {
        for (_, acts) in r {
            assert!(acts.len() <= 1);
        }
    }
    let lr0 = g.get_lr0_parsing_table();
    assert!(lr0.iter().any(|r| r.iter().any(|(_, a)| a.len() > 1)));
}

#[test]
fn nullable_prefix_first_follow() {
    let g = grammar("S -> A B .\nA -> a | .\nB -> b .");
    let ff = g.get_first_follow_table();
    assert!(row(&ff, 'A').nullable);
    assert!(!row(&ff, 'B').nullable);
    assert!(!row(&ff, 'S').nullable);
    assert_eq!(sorted(&row(&ff, 'A').first), vec!['a']);
    assert_eq!(sorted(&row(&ff, 'B').first), vec!['b']);
    assert_eq!(sorted(&row(&ff, 'S').first), vec!['a', 'b']);
    assert_eq!(sorted(&row(&ff, 'S').follow), vec!['$']);
    assert_eq!(sorted(&row(&ff, 'A').follow), vec!['b']);
    assert_eq!(sorted(&row(&ff, 'B').follow), vec!['$']);
}

#[test]
fn slr1_restricts_epsilon_reduce() {
    let g = grammar("S -> a A .\nA -> b | .");
    let ff = g.get_first_follow_table();
    assert!(row(&ff, 'A').nullable);
    assert_eq!(sorted(&row(&ff, 'A').follow), vec!['$']);
    let lr0 = g.get_lr0_parsing_table();
    let slr = g.get_slr1_parsing_table(Some(&lr0), Some(&ff));
    let eps = Action::Reduce(2);
    let s = (0..lr0.len()).find(|s| cell(&lr0, *s, '$').contains(&eps)).expect("state reducing A -> epsilon");
    assert!(cell(&lr0, s, 'a').contains(&eps));
    assert!(cell(&lr0, s, 'b').contains(&eps));
    assert!(cell(&slr, s, '$').contains(&eps));
    assert!(!cell(&slr, s, 'a').contains(&eps));
    assert!(!cell(&slr, s, 'b').contains(&eps));
}

#[test]
fn mutual_nullability() {
    let g = grammar("S -> A B .\nA -> B .\nB -> A | .");
    let ff = g.get_first_follow_table();
    assert!(row(&ff, 'A').nullable);
    assert!(row(&ff, 'B').nullable);
    assert!(row(&ff, 'S').nullable);
    assert!(row(&ff, 'A').first.is_empty());
    assert!(row(&ff, 'B').first.is_empty());
    assert_eq!(sorted(&row(&ff, 'A').follow), vec!['$']);
}

#[test]
fn conflict_survives_rendering() {
    let g = grammar("S -> A .\nA -> a A | a .");
    let lr0 = g.get_lr0_parsing_table();
    let conflicted = lr0.iter().any(|r| {
        r.iter().any(|(_, a)| {
            a.iter().any(|x| matches!(x, Action::Shift(_))) && a.iter().any(|x| matches!(x, Action::Reduce(_)))
        })
    });
    assert!(conflicted);
    let terms = vec!['a', '$'];
    let nts = vec!['S', 'A'];
    let text = generate_parsing_table_latex(&lr0, &terms, &nts, "LR(0)");
    assert!(text.contains("s2/r3") || text.contains("s3/r3") || text.contains("/r"));
}

#[test]
fn base64_round_trip() {
    let encoded = base64::engine::general_purpose::STANDARD.encode(EXPR);
    let decoded = decode_base_64(encoded).expect("valid base64");
    assert_eq!(decoded, EXPR);
    let g = create_grammar_from_str(&decoded).unwrap();
    assert_eq!(g.productions.len(), 6);
}

#[test]
fn base64_errors() {
    assert!(matches!(decode_base_64("not base64!".to_string()), Err(GrammarDecodeError::ParseError(_))));
    let bad_utf8 = base64::engine::general_purpose::STANDARD.encode([0xffu8, 0xfe]);
    assert!(matches!(decode_base_64(bad_utf8), Err(GrammarDecodeError::ParseError(_))));
}

#[test]
fn parse_errors() {
    let bad = |s: &str| matches!(create_grammar_from_str(&s.to_string()), Err(GrammarDecodeError::InvalidFormat(_)));
    assert!(bad("S a b ."));
    assert!(bad("SA -> a ."));
    assert!(bad("S -> ab ."));
    assert!(bad("S -> a $ ."));
    assert!(bad("S -> @ ."));
    assert!(bad("s -> a ."));
    assert!(bad("S -> a .\nT b ."));
}

#[test]
fn text_after_last_period_is_dropped() {
    let g = grammar("S -> a S | b .\n garbage without arrow");
    assert_eq!(g.productions.len(), 2);
    let g2 = grammar("S -> a\n\n   \nS -> b .");
    assert_eq!(g2.productions.len(), 2);
}

#[test]
fn empty_alternative_is_epsilon() {
    let g = grammar("S -> a | | b .");
    assert_eq!(g.productions.len(), 3);
    assert!(g.productions[1].body.is_empty());
    let g2 = grammar("S -> .");
    assert_eq!(g2.productions.len(), 1);
    assert!(g2.productions[0].body.is_empty());
}

#[test]
fn indices_and_start_production() {
    let g = grammar(EXPR);
    for (i, p) in g.productions.iter().enumerate() {
        assert_eq!(p.index, Some(i));
    }
    let start = g.starting_prod.as_ref().expect("start production");
    assert_eq!(start.driver, '@');
    assert_eq!(start.body, vec!['E']);
    assert!(start.index.is_none());
    assert!(Grammar::new().starting_prod.is_none());
}

#[test]
fn add_production_assigns_index() {
    let mut g = Grammar::new();
    g.add_production(Production::new('S', vec!['a', 'S']));
    g.add_production(Production::new('S', vec![]));
    assert_eq!(g.productions[0].index, Some(0));
    assert_eq!(g.productions[1].index, Some(1));
    assert_eq!(g.terms, vec!['a']);
    assert_eq!(g.non_terms, vec!['S']);
    assert_eq!(g.starting_prod.unwrap().body, vec!['S']);
}

#[test]
fn closure_follows_driver_order() {
    let g = grammar(EXPR);
    let start = g.starting_prod.as_ref().unwrap().as_lr0_item();
    let c = g.lr0_closure(vec![start]);
    let prods: Vec<Option<usize>> = c.iter().map(|it| it.production).collect();
    assert_eq!(prods, vec![Some(0), Some(1), Some(2), Some(3), Some(4), Some(5)]);
    assert!(c.iter().all(|it| it.dot_position == 0));
    let again = g.lr0_closure(vec![start].into_iter().chain(c.iter().copied()).collect());
    assert!(again.is_empty());
}

#[test]
fn item_navigation() {
    let g = grammar(EXPR);
    let mut it = Lr0Item::new(&g.productions[0]);
    assert_eq!(it.next_symbol(&g), Some('E'));
    assert!(!it.is_complete(&g));
    it.advance(&g);
    it.advance(&g);
    it.advance(&g);
    assert!(it.is_complete(&g));
    assert_eq!(it.next_item(&g), None);
    it.advance(&g);
    assert_eq!(it.dot_position, 3);
}

#[test]
fn goto_from_start_state() {
    let g = grammar(EXPR);
    let a = get_parsing_automaton(&g);
    let k = a.nodes[0].get_generated_kernel('(', &g);
    assert_eq!(k, vec![Lr0Item { production: Some(4), dot_position: 1 }]);
    assert!(a.nodes[0].get_generated_kernel('+', &g).is_empty());
}

#[test]
fn action_text() {
    assert_eq!(Action::Shift(3).as_string(), "s3");
    assert_eq!(Action::Reduce(1).as_string(), "r2");
    assert_eq!(Action::Goto(14).as_string(), "14");
    assert_eq!(Action::Acc.as_string(), "acc");
}

#[test]
fn dot_drawing() {
    let g = grammar("S -> a .");
    let a = get_parsing_automaton(&g);
    let dot = a.generate_dot_notation_string(&g);
    assert!(dot.starts_with("digraph G {\nnode[shape=record]\n\n"));
    assert!(dot.contains("0 [label=\"{ 0 | @ → •S\\n | S → •a\\n }\"]\n"));
    assert!(dot.contains("0 -> 1 [label=\"S\"]\n"));
    assert!(dot.ends_with("}\n"));
}

#[test]
fn sorted_columns() {
    let g = grammar("S -> z A y .\nA -> x | S .");
    assert_eq!(g.get_sorted_terms(), vec!['x', 'y', 'z']);
    assert_eq!(g.get_sorted_non_terms(), vec!['S', 'A']);
    let g2 = grammar("S -> a .\nA -> b .\nS -> c .");
    assert_eq!(g2.get_sorted_non_terms(), vec!['S', 'A']);
}

fn args() -> Args {
    Args {
        file: Some("g.txt".to_string()),
        base64: None,
        latex: true,
        dot: false,
        grammophone_link: false,
        graphviz_link: false,
        grammar_definition: false,
        lr0_parsing_table: false,
        slr1_parsing_table: false,
        first_follow_set: false,
        all: false,
    }
}

#[test]
fn finalize_defaults_to_full() {
    let f = args().finalize();
    assert!(matches!(f.input_type, InputType::File(ref p) if p == "g.txt"));
    assert_eq!(f.output_type, OutputType::Latex);
    let d = f.latex_format_descriptor.unwrap();
    assert!(d.grammophone_link && d.graphviz_link && d.grammar_definition && d.lr0_parsing_table);
    assert!(d.slr1_parsing_table && d.first_follow_set);
}

#[test]
fn finalize_keeps_flags() {
    let mut a = args();
    a.graphviz_link = true;
    a.first_follow_set = true;
    let d = a.finalize().latex_format_descriptor.unwrap();
    assert!(!d.grammophone_link && d.graphviz_link && d.first_follow_set && !d.lr0_parsing_table);
    let mut b = args();
    b.latex = false;
    b.file = None;
    b.base64 = Some("abc".to_string());
    let f = b.finalize();
    assert_eq!(f.output_type, OutputType::Dot);
    assert!(f.latex_format_descriptor.is_none());
    assert!(matches!(f.input_type, InputType::Base64(ref s) if s == "abc"));
}

#[test]
fn latex_no_flags_equals_all() {
    let g = grammar(EXPR);
    let none = LatexFormatOutputFormatDescriptor {
        grammophone_link: false,
        graphviz_link: false,
        grammar_definition: false,
        lr0_parsing_table: false,
        slr1_parsing_table: false,
        first_follow_set: false,
    };
    let all = g.generate_latex_string(LatexFormatOutputFormatDescriptor::full());
    assert_eq!(g.generate_latex_string(none), all);
    assert!(all.contains("\\href{https://mdaines.github.io/grammophone/?s="));
    assert!(all.contains("\\begin{align*}\n"));
    assert!(all.contains("\\caption{LR(0) parsing table}"));
    assert!(all.contains("\\caption{SLR(1) parsing table}"));
    assert!(all.contains("Symbol & First\\-set & Follow\\-set & Nullable"));
    assert!(all.contains("E & (,i & +,),\\$ & No\\\\\n") || all.contains("E & (,i & "));
}

#[test]
fn latex_selected_fragments_only() {
    let g = grammar("S -> a S | .");
    let mut d = LatexFormatOutputFormatDescriptor::no_links();
    d.lr0_parsing_table = false;
    d.slr1_parsing_table = false;
    d.first_follow_set = false;
    let text = g.generate_latex_string(d);
    assert!(!text.contains("grammophone/?s="));
    assert!(text.contains("S &\\rightarrow aS \\mid \\epsilon \\\\\n"));
    assert!(!text.contains("\\begin{table}"));
}

#[test]
fn grammophone_link_encodes_grammar() {
    let g = grammar("S -> a S | .");
    let d = LatexFormatOutputFormatDescriptor {
        grammophone_link: true,
        graphviz_link: false,
        grammar_definition: false,
        lr0_parsing_table: false,
        slr1_parsing_table: false,
        first_follow_set: false,
    };
    let text = g.generate_latex_string(d);
    let expected = base64::engine::general_purpose::STANDARD.encode("S -> a S |  .\n");
    assert!(text.contains(&format!("?s={}}}{{View on Grammophone}}", expected)));
}

#[test]
fn textual_form_round_trip() {
    let g = grammar(EXPR);
    let text = g.to_text();
    assert_eq!(text, "E -> E + T | T .\nT -> T * F | F .\nF -> ( E ) | i .\n");
    let again = create_grammar_from_str(&text).unwrap();
    assert_eq!(again.productions.len(), g.productions.len());
    for (a, b) in again.productions.iter().zip(g.productions.iter()) {
        assert_eq!(a.driver, b.driver);
        assert_eq!(a.body, b.body);
        assert_eq!(a.index, b.index);
    }
    let eps = grammar("S -> a S | .");
    assert_eq!(eps.to_text(), "S -> a S |  .\n");
    let back = create_grammar_from_str(&eps.to_text()).unwrap();
    assert_eq!(back.productions[1].body, Vec::<char>::new());
}

#[test]
fn grammar_listing() {
    let g = grammar("S -> a S | .");
    assert_eq!(g.as_string(), "0\tS -> aS\n1\tS -> \n");
    let it = Lr0Item { production: Some(0), dot_position: 1 };
    assert_eq!(it.as_string(&g), "S → a•S");
    let start = Lr0Item { production: None, dot_position: 0 };
    assert_eq!(start.as_string(&g), "@ → •S");
}

#[test]
fn automaton_listing() {
    let g = grammar("S -> a .");
    let a = get_parsing_automaton(&g);
    let text = a.as_string(&g);
    assert!(text.starts_with("Node 0:\n  Kernel:\n    @ → •S\n  Closure:\n    S → •a\n"));
    assert!(text.contains("Edges:\n  0 --S--> 1\n"));
}

#[test]
fn kernels_identify_states() {
    let g = grammar(EXPR);
    let a = get_parsing_automaton(&g);
    for s in 0..a.nodes.len() {
        for t in (s + 1)..a.nodes.len() {
            let ks = &a.nodes[s].kernel;
            let kt = &a.nodes[t].kernel;
            let same = ks.len() == kt.len() && ks.iter().all(|i| kt.contains(i));
            assert!(!same);
        }
    }
    for s in 0..a.nodes.len() {
        let mut syms: Vec<char> = a.edges.iter().filter(|e| e.0 == s).map(|e| e.2).collect();
        let n = syms.len();
        syms.sort();
        syms.dedup();
        assert_eq!(syms.len(), n);
    }
}

#[test]
fn slr1_cells_within_lr0_cells() {
    for text in [EXPR, "S -> A .\nA -> a A | a .", "S -> a A .\nA -> b | ."] {
        let g = grammar(text);
        let lr0 = g.get_lr0_parsing_table();
        let slr = g.get_slr1_parsing_table(Some(&lr0), None);
        assert_eq!(slr.len(), lr0.len());
        for (r0, r1) in lr0.iter().zip(slr.iter()) {
            for ((c0, a0), (c1, a1)) in r0.iter().zip(r1.iter()) {
                assert_eq!(c0, c1);
                assert!(a1.iter().all(|x| a0.contains(x)));
            }
        }
    }
}

#[test]
fn accept_on_end_marker() {
    let g = grammar("S -> a .");
    let lr0 = g.get_lr0_parsing_table();
    let acc = (0..lr0.len()).filter(|s| cell(&lr0, *s, '$').contains(&Action::Acc)).count();
    assert_eq!(acc, 1);
    assert!(cell(&lr0, 0, 'a').contains(&Action::Shift(2)) || cell(&lr0, 0, 'a').iter().any(|x| matches!(x, Action::Shift(_))));
    assert!(cell(&lr0, 0, 'S').iter().any(|x| matches!(x, Action::Goto(_))));
}
