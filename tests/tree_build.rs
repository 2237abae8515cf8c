use gbdt::{Data, Row, Tree};

fn one_feature(values: &[i64]) -> Data {
    let rows: Vec<Row> = values.iter().map(|v| Row { label: 1, features: vec![(0, *v)] }).collect();
    Data::new(&rows, values.len(), 1).ok().unwrap()
}

fn build(data: &Data, g: &Vec<i64>, depth: usize, min_split_count: u64) -> Tree {
    let mut tree = Tree::new(depth, data.doc_num, data.fea_num, min_split_count);
    tree.generate_tree_structure(data, g);
    tree
}

#[test]
fn trivial_separable_case() {
    let data = one_feature(&[0, 1, 10, 11]);
    let g = vec![-1000, -1000, 1000, 1000];
    let tree = build(&data, &g, 2, 1);
    let root = tree.nodes[0];
    assert_eq!(root.feature_id, Some(0));
    // threshold (1 + 10) / 2, stored doubled
    assert_eq!(root.split2, 11);
    assert!(root.split2 > 2 * 1 && root.split2 < 2 * 10);
    assert_eq!(tree.nodes[1].label, -1000);
    assert_eq!(tree.nodes[2].label, 1000);
    assert_eq!(root.gain, 4_000_000);
    assert!(root.gain > 0);
    assert_eq!(tree.fea_significance, vec![4_000_000]);
    assert_eq!(tree.node_idx, vec![1, 1, 2, 2]);
}

#[test]
fn minimum_count_pruning() {
    let data = one_feature(&[0, 10]);
    let g = vec![-1000, 1000];
    let tree = build(&data, &g, 3, 10);
    assert_eq!(tree.nodes[0].feature_id, None);
    assert_eq!(tree.nodes[0].count, 2);
    for n in 1..tree.node_num {
        assert_eq!(tree.nodes[n].count, 0);
        assert_eq!(tree.nodes[n].feature_id, None);
    }
    assert_eq!(tree.node_idx, vec![0, 0]);
    assert_eq!(tree.fea_significance, vec![0]);
}

#[test]
fn constant_feature_is_never_chosen() {
    let rows: Vec<Row> = (0..6)
        .map(|i| Row { label: 0, features: vec![(0, 5), (1, i as i64)] })
        .collect();
    let data = Data::new(&rows, 6, 2).ok().unwrap();
    let g = vec![-3, -3, -3, 3, 3, 3];
    let tree = build(&data, &g, 2, 1);
    assert_eq!(tree.nodes[0].feature_id, Some(1));
    assert_eq!(tree.nodes[0].split2, 5);
    assert_eq!(tree.fea_significance[0], 0);

    let only_constant = one_feature(&[4, 4, 4, 4]);
    let tree = build(&only_constant, &vec![-1, 1, -1, 1], 2, 1);
    assert_eq!(tree.nodes[0].feature_id, None);
}

#[test]
fn builds_are_deterministic() {
    let rows: Vec<Row> = (0..30)
        .map(|i| Row { label: (i % 2) as u8, features: vec![(0, (i * 7 % 11) as i64), (1, (i * 3 % 5) as i64)] })
        .collect();
    let data = Data::new(&rows, 30, 2).ok().unwrap();
    let g: Vec<i64> = (0..30).map(|i| ((i * 13) % 17) as i64 - 8).collect();
    let a = build(&data, &g, 4, 2);
    let b = build(&data, &g, 4, 2);
    assert_eq!(a.nodes, b.nodes);
    assert_eq!(a.node_idx, b.node_idx);
    assert_eq!(a.fea_significance, b.fea_significance);
}

#[test]
fn every_document_ends_at_a_leaf_and_counts_are_kept() {
    let rows: Vec<Row> = (0..40)
        .map(|i| Row { label: (i % 2) as u8, features: vec![(0, (i * 7 % 13) as i64), (1, -((i * 5 % 9) as i64))] })
        .collect();
    let data = Data::new(&rows, 40, 2).ok().unwrap();
    let g: Vec<i64> = (0..40).map(|i| ((i * 31) % 23) as i64 - 11).collect();
    let tree = build(&data, &g, 4, 3);
    assert_eq!(tree.nodes[0].count, 40);
    assert_eq!(tree.nodes[0].grad_sum, g.iter().sum::<i64>());
    for d in 0..40 {
        let n = tree.node_idx[d];
        assert!(n < tree.node_num);
        assert_eq!(tree.nodes[n].feature_id, None);
    }
    let mut total_gain = vec![0u128; 2];
    for n in 0..tree.node_num {
        let node = tree.nodes[n];
        if let Some(f) = node.feature_id {
            let l = tree.nodes[2 * n + 1];
            let r = tree.nodes[2 * n + 2];
            assert_eq!(node.count, l.count + r.count);
            assert_eq!(node.grad_sum, l.grad_sum + r.grad_sum);
            total_gain[f] += node.gain;
        } else {
            let held = tree.node_idx.iter().filter(|&&x| x == n).count() as u64;
            assert_eq!(node.count, held);
        }
    }
    assert_eq!(total_gain, tree.fea_significance);
}

#[test]
fn update_fx_adds_each_documents_leaf_label() {
    let data = one_feature(&[0, 1, 10, 11]);
    let g = vec![-1000, -1000, 1000, 1000];
    let tree = build(&data, &g, 2, 1);
    let mut fx = vec![5, 0, 0, -5];
    tree.update_fx(&mut fx);
    assert_eq!(fx, vec![-995, -1000, 1000, 995]);
}

#[test]
fn reset_empties_nodes_but_keeps_importance() {
    let data = one_feature(&[0, 1, 10, 11]);
    let g = vec![-1000, -1000, 1000, 1000];
    let mut tree = build(&data, &g, 2, 1);
    tree.reset();
    assert_eq!(tree.node_idx, vec![0, 0, 0, 0]);
    assert_eq!(tree.fea_significance, vec![4_000_000]);
    assert!(tree.nodes.iter().all(|n| n.count == 0 && n.feature_id.is_none()));
}

#[test]
fn importance_accumulates_over_builds() {
    let data = one_feature(&[0, 1, 10, 11]);
    let g = vec![-1000, -1000, 1000, 1000];
    let mut tree = build(&data, &g, 2, 1);
    tree.generate_tree_structure(&data, &g);
    assert_eq!(tree.fea_significance, vec![8_000_000]);
    assert_eq!(tree.nodes[0].gain, 4_000_000);
}

#[test]
fn update_fx_leaves_documents_at_the_root() {
    let data = one_feature(&[0, 10]);
    let tree = build(&data, &vec![-1000, 1000], 2, 10);
    let mut fx = vec![7, -7];
    tree.update_fx(&mut fx);
    assert_eq!(fx, vec![7, -7]);
}

#[test]
fn split_without_gain_takes_the_first_boundary() {
    let data = one_feature(&[0, 1, 2, 3]);
    let tree = build(&data, &vec![5, 5, 5, 5], 2, 1);
    assert_eq!(tree.nodes[0].feature_id, Some(0));
    assert_eq!(tree.nodes[0].split2, 1);
    assert_eq!(tree.nodes[0].gain, 0);
    assert_eq!(tree.node_idx, vec![1, 2, 2, 2]);
}
