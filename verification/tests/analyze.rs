use brainfuck_rs::analyze::Analyzer;
use brainfuck_rs::inst::{Ast, AstCode};

fn count(analyzer: &Analyzer, pattern: &AstCode) -> usize {
    analyzer
        .patterns_counter
        .iter()
        .filter(|(key, _)| key == pattern)
        .map(|(_, n)| *n)
        .sum()
}

#[test]
fn a_new_analyzer_has_counted_nothing() {
    assert!(Analyzer::new().patterns_counter.is_empty());
}

#[test]
fn the_tree_and_every_loop_body_are_counted() {
    let clear = AstCode::new(vec![Ast::DecrementValue(1)]);
    let inner = AstCode::new(vec![Ast::Loop(clear.clone()), Ast::Output, Ast::Loop(clear.clone())]);
    let tree = AstCode::new(vec![
        Ast::InclementValue(1),
        Ast::Loop(inner.clone()),
        Ast::Loop(clear.clone()),
        Ast::Loop(AstCode::new(vec![])),
    ]);
    let mut analyzer = Analyzer::new();
    analyzer.count_patterns(&tree);
    assert_eq!(count(&analyzer, &tree), 1);
    assert_eq!(count(&analyzer, &inner), 1);
    assert_eq!(count(&analyzer, &clear), 3);
    assert_eq!(count(&analyzer, &AstCode::new(vec![])), 1);
    assert_eq!(count(&analyzer, &AstCode::new(vec![Ast::Output])), 0);
    assert_eq!(analyzer.patterns_counter.len(), 4);

    analyzer.count_patterns(&clear);
    assert_eq!(count(&analyzer, &clear), 4);
    assert_eq!(analyzer.patterns_counter.len(), 4);
}

#[test]
fn a_full_count_gets_a_second_entry() {
    let clear = AstCode::new(vec![Ast::DecrementValue(1)]);
    let mut analyzer = Analyzer::new();
    analyzer.patterns_counter.push((clear.clone(), usize::MAX));
    analyzer.count_patterns(&clear);
    analyzer.count_patterns(&clear);
    assert_eq!(analyzer.patterns_counter.len(), 2);
    assert_eq!(analyzer.patterns_counter[0].1, usize::MAX);
    assert_eq!(analyzer.patterns_counter[1], (clear, 2));
}

#[test]
fn entries_are_ranked_by_their_counts() {
    let mut analyzer = Analyzer::new();
    let a = AstCode::new(vec![Ast::Output]);
    let b = AstCode::new(vec![Ast::Input]);
    let c = AstCode::new(vec![]);
    let d = AstCode::new(vec![Ast::Load(1)]);
    analyzer.patterns_counter.push((a, 2));
    analyzer.patterns_counter.push((b, 5));
    analyzer.patterns_counter.push((c, 2));
    analyzer.patterns_counter.push((d, 9));
    assert_eq!(analyzer.ranking(), vec![3, 1, 0, 2]);
    assert_eq!(analyzer.to_string(), "[Load(1)]: 9\n[Input]: 5\n[Output]: 2\n[]: 2\n");
    assert_eq!(Analyzer::new().ranking(), Vec::<usize>::new());
    assert_eq!(Analyzer::new().to_string(), "");
}

#[test]
fn the_counts_of_a_tree_are_listed() {
    // +[[-]>[-]]
    let clear = AstCode::new(vec![Ast::DecrementValue(1)]);
    let tree = AstCode::new(vec![
        Ast::InclementValue(1),
        Ast::Loop(AstCode::new(vec![
            Ast::Loop(clear.clone()),
            Ast::InclementPointer(1),
            Ast::Loop(clear),
        ])),
    ]);
    let mut analyzer = Analyzer::new();
    analyzer.count_patterns(&tree);
    assert_eq!(
        analyzer.to_string(),
        "[- (1)]: 2\n[+ (1)[[- (1)]> (1)[- (1)]]]: 1\n[[- (1)]> (1)[- (1)]]: 1\n"
    );
}
