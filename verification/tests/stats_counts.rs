use bf::{optimize, parse, stats, tokenize, Expression, Stats};

fn tree(source: &str) -> Vec<Expression> {
    parse(&tokenize(&source.chars().collect())).unwrap()
}

fn counts(fwd: usize, bwd: usize, inc: usize, dec: usize, output: usize, input: usize, loops: usize) -> Stats {
    Stats {
        fwd_count: fwd,
        bwd_count: bwd,
        inc_count: inc,
        dec_count: dec,
        output_count: output,
        input_count: input,
        loop_count: loops,
    }
}

#[test]
fn stats_counts_each_kind_once() {
    assert_eq!(stats(&optimize(&tree("+-><.,[]"))), counts(1, 1, 1, 1, 1, 1, 1));
    assert_eq!(stats(&tree("+-><.,[]")), counts(1, 1, 1, 1, 1, 1, 1));
}

#[test]
fn stats_of_empty_tree_is_zero() {
    assert_eq!(stats(&vec![]), Stats::default());
    assert_eq!(Stats::default(), counts(0, 0, 0, 0, 0, 0, 0));
}

#[test]
fn stats_counts_nodes_at_every_depth() {
    assert_eq!(stats(&tree("+[>[-]<[[.]],]+")), counts(1, 1, 2, 1, 1, 1, 4));
}

#[test]
fn stats_counts_nodes_not_their_counts() {
    assert_eq!(stats(&tree("+++>>")), counts(2, 0, 3, 0, 0, 0, 0));
    assert_eq!(stats(&optimize(&tree("+++>>"))), counts(1, 0, 1, 0, 0, 0, 0));
}

#[test]
fn stats_of_a_tree_is_the_merge_of_its_parts() {
    let left = tree("+[>]");
    let right = tree("-[[<]].");
    let mut whole = left.clone();
    whole.extend(right.clone());
    assert_eq!(stats(&whole), stats(&left).merge(stats(&right)));
    assert_eq!(stats(&whole), stats(&right) + stats(&left));
}

#[test]
fn merge_adds_pointwise() {
    let a = counts(1, 2, 3, 4, 5, 6, 7);
    let b = counts(10, 20, 30, 40, 50, 60, 70);
    assert_eq!(a.merge(b), counts(11, 22, 33, 44, 55, 66, 77));
    assert_eq!(a + b, counts(11, 22, 33, 44, 55, 66, 77));
}

#[test]
fn merge_is_commutative_and_associative() {
    let a = counts(1, 2, 3, 4, 5, 6, 7);
    let b = counts(7, 0, 2, 9, 1, 1, 3);
    let c = counts(usize::MAX, 5, 0, 0, 8, 2, 1);
    assert_eq!(a.merge(b), b.merge(a));
    assert_eq!(a.merge(b).merge(c), a.merge(b.merge(c)));
}

#[test]
fn merge_stops_at_the_largest_counter() {
    let a = counts(usize::MAX, usize::MAX - 1, 0, 0, 0, 0, 0);
    let b = counts(1, 1, 0, 0, 0, 0, 0);
    assert_eq!(a.merge(b), counts(usize::MAX, usize::MAX, 0, 0, 0, 0, 0));
}
