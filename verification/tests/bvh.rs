use rust_raytracer::mesh::{make_bound, select_tris, BuildStep, BvhBuilder, SplitCandidate};

#[test]
fn select_tris_keeps_flagged() {
    let tris = vec![4, 7, 9, 12];
    assert_eq!(select_tris(&tris, &vec![true, false, true, false]), vec![4, 9]);
    assert_eq!(select_tris(&tris, &vec![false; 4]), Vec::<usize>::new());
}

#[test]
fn make_bound_none_when_empty() {
    assert!(make_bound(&vec![1, 2], &vec![false, false], 0, 1).is_none());
}

#[test]
fn make_bound_some() {
    let b = make_bound(&vec![1, 2, 3], &vec![true, false, true], 5, 2).unwrap();
    assert_eq!(b.parent_index, 5);
    assert_eq!(b.tris, vec![1, 3]);
    assert!(b.children.is_empty());
    assert_eq!(b.depth, 2);
}

#[test]
fn empty_mesh_builds_nothing() {
    let mut b = BvhBuilder::new(0, 3);
    assert_eq!(b.next_step(), BuildStep::Skipped);
    assert_eq!(b.next_step(), BuildStep::Finished);
    assert!(b.is_finished());
    assert!(b.bounds().is_empty());
}

#[test]
fn single_triangle_is_a_leaf() {
    let mut b = BvhBuilder::new(1, 3);
    assert_eq!(b.next_step(), BuildStep::Leaf(0));
    assert_eq!(b.next_step(), BuildStep::Finished);
    let bounds = b.into_bounds();
    assert_eq!(bounds.len(), 1);
    assert_eq!(bounds[0].tris, vec![0]);
    assert_eq!(bounds[0].depth, 0);
}

#[test]
fn depth_limit_zero_makes_root_a_leaf() {
    let mut b = BvhBuilder::new(5, 0);
    assert_eq!(b.next_step(), BuildStep::Leaf(0));
    assert_eq!(b.next_step(), BuildStep::Finished);
}

#[test]
fn builds_breadth_first() {
    // four triangles, split {0,1} | {2,3}, then each pair in two
    let mut b = BvhBuilder::new(4, 5);
    assert_eq!(b.next_step(), BuildStep::Split(0));
    assert_eq!(b.awaiting(), Some(0));
    b.split(&vec![true, true, false, false], &vec![false, false, true, true]);
    assert_eq!(b.next_step(), BuildStep::Split(1));
    b.split(&vec![true, false], &vec![false, true]);
    assert_eq!(b.next_step(), BuildStep::Split(2));
    b.split(&vec![false, true], &vec![true, false]);
    assert_eq!(b.next_step(), BuildStep::Leaf(3));
    assert_eq!(b.next_step(), BuildStep::Leaf(4));
    assert_eq!(b.next_step(), BuildStep::Leaf(5));
    assert_eq!(b.next_step(), BuildStep::Leaf(6));
    assert_eq!(b.next_step(), BuildStep::Finished);
    let bounds = b.into_bounds();
    assert_eq!(bounds.len(), 7);
    assert_eq!(bounds[0].children, vec![1, 2]);
    assert_eq!(bounds[1].children, vec![3, 4]);
    assert_eq!(bounds[2].children, vec![5, 6]);
    assert_eq!(bounds[3].tris, vec![0]);
    assert_eq!(bounds[4].tris, vec![1]);
    assert_eq!(bounds[5].tris, vec![3]);
    assert_eq!(bounds[6].tris, vec![2]);
    assert_eq!(bounds[5].parent_index, 2);
    assert_eq!(bounds[5].depth, 2);
    // every triangle lies in exactly one leaf
    let mut leaf_tris: Vec<usize> = bounds
        .iter()
        .filter(|n| n.children.is_empty())
        .flat_map(|n| n.tris.clone())
        .collect();
    leaf_tris.sort();
    assert_eq!(leaf_tris, vec![0, 1, 2, 3]);
}

#[test]
fn empty_side_is_skipped() {
    let mut b = BvhBuilder::new(2, 1);
    assert_eq!(b.next_step(), BuildStep::Split(0));
    b.split(&vec![false, false], &vec![true, true]);
    assert_eq!(b.next_step(), BuildStep::Skipped);
    assert_eq!(b.next_step(), BuildStep::Leaf(1));
    assert_eq!(b.next_step(), BuildStep::Finished);
    let bounds = b.into_bounds();
    assert_eq!(bounds[0].children, vec![1]);
    assert_eq!(bounds[1].tris, vec![0, 1]);
    assert_eq!(bounds[1].depth, 1);
}

#[test]
fn split_candidates_layout() {
    let mut b = BvhBuilder::new(3, 2);
    assert_eq!(b.next_step(), BuildStep::Split(0));
    let c = b.split_candidates();
    assert_eq!(c.len(), 33);
    for (k, cand) in c.iter().enumerate() {
        let axis = (k / 11) as u8;
        if k % 11 == 0 {
            assert_eq!(*cand, SplitCandidate::Midpoint(axis));
        } else {
            match cand {
                SplitCandidate::TriCenter(a, t) => {
                    assert_eq!(*a, axis);
                    assert!(*t < 3);
                }
                _ => panic!("expected a triangle centre"),
            }
        }
    }
}

#[test]
fn is_leaf_bound_rule() {
    let one = make_bound(&vec![4], &vec![true], 0, 0).unwrap();
    let two = make_bound(&vec![4, 5], &vec![true, true], 0, 1).unwrap();
    assert!(rust_raytracer::mesh::is_leaf_bound(&one, 3));
    assert!(!rust_raytracer::mesh::is_leaf_bound(&two, 3));
    assert!(rust_raytracer::mesh::is_leaf_bound(&two, 1));
}

#[test]
fn build_bvh_splits_in_halves() {
    // split each bound into its first half and the rest
    let b = rust_raytracer::mesh::build_bvh(8, 5, |tris: &Vec<usize>, c: &Vec<SplitCandidate>| {
        assert_eq!(c.len(), 33);
        let half = tris.len() / 2;
        let left: Vec<bool> = (0..tris.len()).map(|k| k < half).collect();
        let right: Vec<bool> = left.iter().map(|f| !f).collect();
        (left, right)
    });
    assert!(b.is_finished());
    let bounds = b.into_bounds();
    // a full binary tree over 8 triangles: 15 bounds, within both limits
    assert_eq!(bounds.len(), 15);
    assert!(bounds.len() <= (5 + 1) * 8);
    assert!(bounds.len() <= (1 << 6) - 1);
    let mut leaf_tris: Vec<usize> = bounds
        .iter()
        .filter(|n| rust_raytracer::mesh::is_leaf_bound(n, 5))
        .flat_map(|n| n.tris.clone())
        .collect();
    leaf_tris.sort();
    assert_eq!(leaf_tris, (0..8).collect::<Vec<usize>>());
    for n in bounds.iter() {
        if !rust_raytracer::mesh::is_leaf_bound(n, 5) {
            let mut kids: Vec<usize> = n.children.iter().flat_map(|c| bounds[*c].tris.clone()).collect();
            kids.sort();
            let mut own = n.tris.clone();
            own.sort();
            assert_eq!(kids, own);
        }
    }
}

#[test]
fn build_bvh_with_no_split_found_keeps_children() {
    // every triangle goes to both sides: the depth limit stops the growth
    let b = rust_raytracer::mesh::build_bvh(3, 2, |tris: &Vec<usize>, _c: &Vec<SplitCandidate>| {
        (vec![true; tris.len()], vec![true; tris.len()])
    });
    let bounds = b.into_bounds();
    assert_eq!(bounds.len(), 7);
    assert!(bounds.len() <= (1 << 3) - 1);
    for n in bounds.iter() {
        if n.depth < 2 {
            assert_eq!(n.children.len(), 2);
        }
    }
}

#[test]
fn build_bvh_root_holds_every_triangle() {
    let b = rust_raytracer::mesh::build_bvh(5, 3, |tris: &Vec<usize>, _c: &Vec<SplitCandidate>| {
        let left: Vec<bool> = tris.iter().map(|t| t % 2 == 0).collect();
        let right: Vec<bool> = left.iter().map(|f| !f).collect();
        (left, right)
    });
    let bounds = b.into_bounds();
    assert_eq!(bounds[0].tris, vec![0, 1, 2, 3, 4]);
    assert_eq!(bounds[0].depth, 0);
    assert_eq!(bounds[0].parent_index, 0);
}

#[test]
fn build_bvh_depth_limit_zero_gives_one_root_leaf() {
    let b = rust_raytracer::mesh::build_bvh(2, 0, |tris: &Vec<usize>, _c: &Vec<SplitCandidate>| {
        (vec![true; tris.len()], vec![false; tris.len()])
    });
    let bounds = b.into_bounds();
    assert_eq!(bounds.len(), 1);
    assert_eq!(bounds[0].tris, vec![0, 1]);
    assert!(bounds[0].children.is_empty());
}

#[test]
fn build_bvh_of_no_triangles_is_empty() {
    let b = rust_raytracer::mesh::build_bvh(0, 4, |tris: &Vec<usize>, _c: &Vec<SplitCandidate>| {
        (vec![true; tris.len()], vec![false; tris.len()])
    });
    assert!(b.into_bounds().is_empty());
}

#[test]
fn build_bvh_queues_left_part_first() {
    // the left part is the last triangle alone, the right part the others
    let b = rust_raytracer::mesh::build_bvh(2, 1, |tris: &Vec<usize>, _c: &Vec<SplitCandidate>| {
        let last = tris.len() - 1;
        let left: Vec<bool> = (0..tris.len()).map(|k| k == last).collect();
        let right: Vec<bool> = left.iter().map(|f| !f).collect();
        (left, right)
    });
    let bounds = b.into_bounds();
    assert_eq!(bounds.len(), 3);
    assert_eq!(bounds[0].children, vec![1, 2]);
    assert_eq!(bounds[1].tris, vec![1]);
    assert_eq!(bounds[2].tris, vec![0]);
    assert_eq!(bounds[1].depth, 1);
    assert_eq!(bounds[2].parent_index, 0);
}

#[test]
fn build_bvh_one_sided_split_gives_one_child() {
    // every triangle goes left: the right part is empty and dropped
    let b = rust_raytracer::mesh::build_bvh(2, 1, |tris: &Vec<usize>, _c: &Vec<SplitCandidate>| {
        (vec![true; tris.len()], vec![false; tris.len()])
    });
    let bounds = b.into_bounds();
    assert_eq!(bounds.len(), 2);
    assert_eq!(bounds[0].children, vec![1]);
    assert_eq!(bounds[1].tris, vec![0, 1]);
    assert!(bounds[1].children.is_empty());
}
