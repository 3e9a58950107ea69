use portal::detection::{nms, select_nms_boxes, select_top_boxes};
use portal::visualize::{class_color, COLORS};

fn matrix(n: usize, pairs: &[(usize, usize)]) -> Vec<Vec<bool>> {
    let mut m = vec![vec![false; n]; n];
    for &(i, j) in pairs {
        m[i][j] = true;
    }
    m
}

#[test]
fn nms_keeps_best_and_drops_suppressed() {
    // ranking: 1, 0, 2, 3 ; 1 suppresses 0, 0 would suppress 2 but 0 is gone
    let keys = vec![50, 90, 40, 10];
    let sup = matrix(4, &[(1, 0), (0, 2), (2, 3)]);
    assert_eq!(nms(&keys, &sup), vec![1, 2]);
}

#[test]
fn nms_empty() {
    assert_eq!(nms(&vec![], &vec![]), Vec::<usize>::new());
}

#[test]
fn nms_no_overlap_keeps_all_ranked() {
    let keys = vec![3, 1, 2];
    assert_eq!(nms(&keys, &matrix(3, &[])), vec![0, 2, 1]);
}

#[test]
fn nms_law_kept_do_not_suppress_each_other() {
    let keys = vec![7, 3, 9, 5, 1, 8];
    let sup = matrix(6, &[(2, 5), (5, 0), (0, 3), (3, 1), (2, 4), (1, 4)]);
    let kept = nms(&keys, &sup);
    for a in 0..kept.len() {
        for b in a + 1..kept.len() {
            assert!(!sup[kept[a]][kept[b]]);
        }
    }
    for x in 0..keys.len() {
        if !kept.contains(&x) {
            assert!(kept.iter().any(|&k| sup[k][x] && keys[k] >= keys[x]));
        }
    }
}

#[test]
fn nms_law_idempotent() {
    let keys = vec![7, 3, 9, 5, 1, 8];
    let sup = matrix(6, &[(2, 5), (5, 0), (0, 3), (3, 1), (2, 4), (1, 4)]);
    let kept = nms(&keys, &sup);
    let sub_keys: Vec<u32> = kept.iter().map(|&i| keys[i]).collect();
    let sub_sup: Vec<Vec<bool>> =
        kept.iter().map(|&i| kept.iter().map(|&j| sup[i][j]).collect()).collect();
    let again: Vec<usize> = nms(&sub_keys, &sub_sup).into_iter().map(|i| kept[i]).collect();
    assert_eq!(again, kept);
}

#[test]
fn nms_selection_truncates() {
    let keys = vec![7, 3, 9, 5];
    let sup = matrix(4, &[]);
    assert_eq!(select_nms_boxes(&keys, &sup, 2), vec![2, 0]);
    assert_eq!(select_nms_boxes(&keys, &sup, 10), vec![2, 0, 3, 1]);
    assert_eq!(select_nms_boxes(&keys, &sup, 0), Vec::<usize>::new());
}

#[test]
fn top_selection_filters_sorts_truncates() {
    let keys = vec![7, 3, 9, 5, 9];
    let passes = vec![true, false, true, true, true];
    assert_eq!(select_top_boxes(&keys, &passes, 3), vec![2, 4, 0]);
    assert_eq!(select_top_boxes(&keys, &passes, 300), vec![2, 4, 0, 3]);
    assert_eq!(select_top_boxes(&keys, &vec![false; 5], 3), Vec::<usize>::new());
}

#[test]
fn colors_by_class() {
    assert_eq!(class_color(0), COLORS[0]);
    assert_eq!(class_color(13), COLORS[3]);
    assert_eq!(class_color(-1), COLORS[(usize::MAX % 10) as usize]);
    assert_eq!(class_color(0), [255, 153, 255, 255]);
}

#[test]
fn nms_law_decomposes_by_class() {
    // labels: boxes 0,2,4 are class 0; boxes 1,3 are class 1
    let labels = [0, 1, 0, 1, 0];
    let keys = vec![9, 8, 7, 6, 5];
    // overlaps only within a class
    let sup = matrix(5, &[(0, 2), (2, 4), (1, 3), (3, 1)]);
    let kept = nms(&keys, &sup);
    for c in [0, 1] {
        let members: Vec<usize> = (0..5).filter(|&i| labels[i] == c).collect();
        let sub_keys: Vec<u32> = members.iter().map(|&i| keys[i]).collect();
        let sub_sup: Vec<Vec<bool>> =
            members.iter().map(|&i| members.iter().map(|&j| sup[i][j]).collect()).collect();
        let alone: Vec<usize> = nms(&sub_keys, &sub_sup).into_iter().map(|i| members[i]).collect();
        let of_c: Vec<usize> = kept.iter().copied().filter(|&i| labels[i] == c).collect();
        assert_eq!(of_c, alone);
    }
    assert_eq!(kept, vec![0, 1, 4]);
}
