use skeleton_tracer::ascii::parse_txt_image;
use skeleton_tracer::merge::merge_frags;
use skeleton_tracer::svg::{polylines_to_svg, polylines_to_text};
use skeleton_tracer::thinning::thinning_zs;
use skeleton_tracer::trace::trace_skeleton;

fn raster(w: usize, h: usize, on: &[(usize, usize)]) -> Vec<u8> {
    let mut im = vec![0u8; w * h];
    for &(x, y) in on {
        im[y * w + x] = 1;
    }
    im
}

fn filled(w: usize, h: usize, x0: usize, y0: usize, x1: usize, y1: usize) -> Vec<u8> {
    let mut im = vec![0u8; w * h];
    for y in y0..y1 {
        for x in x0..x1 {
            im[y * w + x] = 1;
        }
    }
    im
}

fn plus_sign() -> Vec<u8> {
    let mut on = vec![];
    for k in 0..9 {
        on.push((k, 4));
        on.push((4, k));
    }
    raster(9, 9, &on)
}

fn foreground(im: &[u8], w: usize) -> Vec<(usize, usize)> {
    (0..im.len()).filter(|&k| im[k] != 0).map(|k| (k % w, k / w)).collect()
}

fn components(im: &[u8], w: usize, h: usize) -> usize {
    let mut seen = vec![false; im.len()];
    let mut count = 0;
    for start in 0..im.len() {
        if im[start] == 0 || seen[start] {
            continue;
        }
        count += 1;
        let mut stack = vec![start];
        seen[start] = true;
        while let Some(k) = stack.pop() {
            let (x, y) = ((k % w) as i64, (k / w) as i64);
            for dy in -1..=1i64 {
                for dx in -1..=1i64 {
                    let (nx, ny) = (x + dx, y + dy);
                    if nx < 0 || ny < 0 || nx >= w as i64 || ny >= h as i64 {
                        continue;
                    }
                    let q = ny as usize * w + nx as usize;
                    if im[q] != 0 && !seen[q] {
                        seen[q] = true;
                        stack.push(q);
                    }
                }
            }
        }
    }
    count
}

fn all_points(c: &[Vec<[usize; 2]>]) -> Vec<[usize; 2]> {
    let mut p: Vec<[usize; 2]> = c.iter().flatten().copied().collect();
    p.sort();
    p
}

#[test]
fn empty_raster() {
    let mut im = vec![0u8; 100];
    thinning_zs(&mut im, 10, 10);
    assert_eq!(im, vec![0u8; 100]);
    let p = trace_skeleton(&im, 10, 10, 0, 0, 10, 10, 10, 999);
    assert!(p.is_empty());
}

#[test]
fn single_pixel() {
    let mut im = raster(3, 3, &[(1, 1)]);
    thinning_zs(&mut im, 3, 3);
    assert_eq!(im, raster(3, 3, &[(1, 1)]));
    let p = trace_skeleton(&im, 3, 3, 0, 0, 3, 3, 10, 999);
    assert!(p.is_empty());
}

#[test]
fn horizontal_stroke() {
    let on: Vec<(usize, usize)> = (0..9).map(|x| (x, 1)).collect();
    let mut im = raster(9, 3, &on);
    thinning_zs(&mut im, 9, 3);
    assert_eq!(im, raster(9, 3, &on));
    let p = trace_skeleton(&im, 9, 3, 0, 0, 9, 3, 9, 999);
    assert_eq!(p, vec![vec![[8, 1], [0, 1]]]);
}

#[test]
fn plus_sign_scenario() {
    let mut im = plus_sign();
    thinning_zs(&mut im, 9, 9);
    assert_eq!(im, plus_sign());
    let p = trace_skeleton(&im, 9, 9, 0, 0, 9, 9, 10, 999);
    assert_eq!(
        p,
        vec![
            vec![[4, 0], [4, 4]],
            vec![[8, 4], [4, 4]],
            vec![[4, 8], [4, 4]],
            vec![[0, 4], [4, 4]],
        ]
    );
}

#[test]
fn diagonal() {
    let on: Vec<(usize, usize)> = (0..9).map(|i| (i, i)).collect();
    let mut im = raster(9, 9, &on);
    thinning_zs(&mut im, 9, 9);
    assert_eq!(im, raster(9, 9, &on));
    let p = trace_skeleton(&im, 9, 9, 0, 0, 9, 9, 9, 999);
    assert_eq!(p, vec![vec![[0, 0], [8, 8]]]);
}

#[test]
fn ascii_round_trip() {
    let (im, w, h) = parse_txt_image(&b"01010\n10101\n".to_vec());
    assert_eq!((w, h), (5, 2));
    assert_eq!(im, vec![0, 1, 0, 1, 0, 1, 0, 1, 0, 1]);
}

#[test]
fn ascii_ignores_other_bytes_and_counts_unterminated_row() {
    let (im, w, h) = parse_txt_image(&b"0x1\n111\n01".to_vec());
    assert_eq!((w, h), (3, 3));
    assert_eq!(im, vec![0, 1, 1, 1, 1, 0, 1]);
    let (im, w, h) = parse_txt_image(&Vec::new());
    assert_eq!((im.len(), w, h), (0, 0, 0));
}

#[test]
fn thinning_reaches_fixed_point() {
    let mut im = filled(12, 10, 2, 2, 10, 8);
    thinning_zs(&mut im, 12, 10);
    let once = im.clone();
    thinning_zs(&mut im, 12, 10);
    assert_eq!(im, once);
}

#[test]
fn thinning_keeps_subset() {
    let orig = filled(12, 10, 2, 2, 10, 8);
    let mut im = orig.clone();
    thinning_zs(&mut im, 12, 10);
    assert!(im.iter().any(|&v| v != 0));
    assert!(im.len() == orig.len());
    for k in 0..im.len() {
        assert!(im[k] <= orig[k]);
    }
    assert!(foreground(&im, 12).len() < foreground(&orig, 12).len());
}

#[test]
fn thinning_keeps_blob_connected() {
    let orig = filled(16, 9, 1, 2, 15, 7);
    let mut im = orig.clone();
    thinning_zs(&mut im, 16, 9);
    assert_eq!(components(&orig, 16, 9), 1);
    assert_eq!(components(&im, 16, 9), 1);
}

#[test]
fn traced_polylines_are_well_formed() {
    let w = 40;
    let h = 30;
    let mut im = vec![0u8; w * h];
    for k in 0..30 {
        im[k * w + k] = 1;
        im[15 * w + k + 5] = 1;
        im[k * w + 20] = 1;
    }
    thinning_zs(&mut im, w, h);
    for cs in [3usize, 5, 10] {
        let p = trace_skeleton(&im, w, h, 0, 0, w, h, cs, 999);
        assert!(!p.is_empty());
        for f in &p {
            assert!(f.len() >= 2);
            for q in f {
                assert!(q[0] < w && q[1] < h);
            }
        }
    }
}

#[test]
fn tracing_is_deterministic() {
    let mut im = filled(30, 20, 3, 4, 27, 9);
    thinning_zs(&mut im, 30, 20);
    let a = trace_skeleton(&im, 30, 20, 0, 0, 30, 20, 6, 999);
    let b = trace_skeleton(&im, 30, 20, 0, 0, 30, 20, 6, 999);
    assert_eq!(a, b);
}

#[test]
fn zero_depth_gives_nothing() {
    let im = plus_sign();
    assert!(trace_skeleton(&im, 9, 9, 0, 0, 9, 9, 10, 0).is_empty());
}

#[test]
fn merge_joins_across_vertical_seam() {
    let mut c0 = vec![vec![[2, 0], [2, 4]]];
    let mut c1 = vec![vec![[2, 5], [2, 9]]];
    merge_frags(&mut c0, &mut c1, 5, true);
    assert!(c1.is_empty());
    assert_eq!(c0, vec![vec![[2, 0], [2, 4], [2, 5], [2, 9]]]);
}

#[test]
fn merge_reverses_to_join_heads() {
    let mut c0 = vec![vec![[6, 3], [9, 3]]];
    let mut c1 = vec![vec![[14, 2], [10, 3]]];
    merge_frags(&mut c0, &mut c1, 10, false);
    assert_eq!(c0, vec![vec![[6, 3], [9, 3], [10, 3], [14, 2]]]);
}

#[test]
fn merge_conserves_points() {
    let mut c0 = vec![vec![[1, 0], [1, 4]], vec![[7, 1], [7, 4]]];
    let mut c1 = vec![vec![[1, 5], [2, 8]], vec![[9, 9], [9, 6]], vec![[7, 5], [6, 9]]];
    let before = {
        let mut all = c0.clone();
        all.extend(c1.clone());
        all_points(&all)
    };
    merge_frags(&mut c0, &mut c1, 5, true);
    assert!(c1.is_empty());
    assert_eq!(all_points(&c0), before);
    assert_eq!(c0.len(), 3);
    assert!(c0.iter().all(|f| f.len() >= 2));
}

#[test]
fn merge_into_empty_adopts_all() {
    let mut c0: Vec<Vec<[usize; 2]>> = vec![];
    let mut c1 = vec![vec![[1, 5], [2, 8]]];
    merge_frags(&mut c0, &mut c1, 5, true);
    assert_eq!(c0, vec![vec![[1, 5], [2, 8]]]);
    assert!(c1.is_empty());
}

#[test]
fn svg_output() {
    let q = vec![vec![[0, 1], [8, 1]], vec![[4, 0], [4, 4], [12, 30]]];
    let svg = polylines_to_svg(&q, 9, 31);
    assert_eq!(
        svg,
        "<svg xmlns=\"http://www.w3.org/2000/svg\" width=\"9\" height=\"31\" fill=\"none\" stroke=\"black\" stroke-width=\"1\"><path d=\"M0,1 L8,1 \"/><path d=\"M4,0 L4,4 L12,30 \"/></svg>"
    );
}

#[test]
fn svg_empty() {
    let svg = polylines_to_svg(&vec![], 100, 7);
    assert_eq!(
        svg,
        "<svg xmlns=\"http://www.w3.org/2000/svg\" width=\"100\" height=\"7\" fill=\"none\" stroke=\"black\" stroke-width=\"1\"></svg>"
    );
}

#[test]
fn text_listing() {
    let q = vec![vec![[0, 1], [8, 1]], vec![[4, 0], [4, 4], [12, 30]]];
    assert_eq!(polylines_to_text(&q), "0,1 8,1 \n4,0 4,4 12,30 \n");
    assert_eq!(polylines_to_text(&vec![]), "");
}

#[test]
fn plus_sign_split_into_chunks() {
    let mut im = plus_sign();
    thinning_zs(&mut im, 9, 9);
    let p = trace_skeleton(&im, 9, 9, 0, 0, 9, 9, 4, 999);
    assert!(!p.is_empty());
    let mut ends: Vec<[usize; 2]> = vec![];
    for f in &p {
        assert!(f.len() >= 2);
        ends.push(f[0]);
        ends.push(f[f.len() - 1]);
        for q in f {
            assert!(q[0] < 9 && q[1] < 9);
        }
    }
    assert!(ends.iter().any(|e| e[0] == 4 && e[1] <= 1));
    assert!(ends.iter().any(|e| e[0] == 4 && e[1] >= 7));
}

#[test]
fn thinning_erases_two_by_two_block() {
    let mut im = filled(4, 4, 1, 1, 3, 3);
    thinning_zs(&mut im, 4, 4);
    assert_eq!(im, vec![0u8; 16]);
}

#[test]
fn thinning_keeps_stroke_ends() {
    let on: Vec<(usize, usize)> = (1..7).map(|x| (x, 2)).collect();
    let mut im = raster(8, 5, &on);
    thinning_zs(&mut im, 8, 5);
    assert_eq!(im[2 * 8 + 1], 1);
    assert_eq!(im[2 * 8 + 6], 1);
}

#[test]
fn centres_stay_when_interior_is_empty() {
    let im = raster(5, 5, &[(2, 0), (4, 2), (2, 4)]);
    let p = trace_skeleton(&im, 5, 5, 0, 0, 5, 5, 10, 999);
    assert_eq!(
        p,
        vec![vec![[2, 0], [2, 2]], vec![[4, 2], [2, 2]], vec![[2, 4], [2, 2]]]
    );
}
