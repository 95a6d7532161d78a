use build_cart::macrotile::{encode_layer_macro, eval_combo, flatten_cells, macro_jobs, min_bpp};

#[test]
fn bits_for_values() {
    assert_eq!(min_bpp(0), 1);
    assert_eq!(min_bpp(1), 1);
    assert_eq!(min_bpp(2), 1);
    assert_eq!(min_bpp(3), 2);
    assert_eq!(min_bpp(5), 3);
    assert_eq!(min_bpp(256), 8);
    assert_eq!(min_bpp(257), 9);
}

#[test]
fn flatten_rows() {
    assert_eq!(flatten_cells(&[vec![1, 2], vec![3], vec![]]), vec![1, 2, 3]);
}

#[test]
fn jobs_for_small_map() {
    let jobs = macro_jobs(2, 2);
    assert_eq!(
        jobs,
        vec![(2, 1, 0, 0), (2, 1, 1, 0), (1, 2, 0, 0), (1, 2, 0, 1), (2, 2, 0, 0), (2, 2, 1, 0), (2, 2, 0, 1), (2, 2, 1, 1)]
    );
    assert!(macro_jobs(1, 1).is_empty());
}

#[test]
fn combo_counts_distinct_blocks() {
    let cells = vec![1u16, 1, 1, 1];
    let r = eval_combo(&cells, 2, 2, 2, 1, 0, 0).unwrap();
    assert_eq!((r.bw, r.bh, r.ox, r.oy, r.n_blocks), (2, 1, 0, 0, 1));
    let cells = vec![1u16, 2, 3, 4];
    let r = eval_combo(&cells, 2, 2, 1, 2, 0, 0).unwrap();
    assert_eq!(r.n_blocks, 2);
    // an offset adds border blocks of zeros
    let r = eval_combo(&cells, 2, 2, 1, 2, 0, 1).unwrap();
    assert_eq!(r.n_blocks, 4);
}

#[test]
fn combo_gives_up_past_255_blocks() {
    let cells: Vec<u16> = (0..512u32).map(|i| (i % 256) as u16).collect();
    assert_eq!(eval_combo(&cells, 32, 16, 2, 1, 0, 0).unwrap().n_blocks, 128);
    let distinct_255: Vec<u16> = (0..510u32).map(|i| (i % 255) as u16).collect();
    assert_eq!(eval_combo(&distinct_255, 510, 1, 1, 1, 0, 0).unwrap().n_blocks, 255);
    assert!(eval_combo(&cells, 512, 1, 1, 1, 0, 0).is_none());
}

#[test]
fn empty_layer() {
    let (bytes, desc) = encode_layer_macro(&[vec![0, 0], vec![0, 0]], 2, 2, "bg");
    assert_eq!(bytes.len(), 99999);
    assert!(bytes.iter().all(|&b| b == 0));
    assert_eq!(desc, "MACRO: empty layer");
}

#[test]
fn small_layer() {
    let grid = vec![vec![1u16, 2, 1, 2], vec![3, 4, 3, 4]];
    let (bytes, desc) = encode_layer_macro(&grid, 4, 2, "fg");
    assert_eq!(bytes[0], 0xFF);
    let (bw, bh) = (bytes[1] as usize, bytes[2] as usize);
    assert!(bw * bh >= 2 && bw <= 4 && bh <= 2);
    assert!(desc.starts_with(&format!("MACRO {}x{} off=(", bw, bh)));
}

#[test]
fn macro_keeps_least_total() {
    let grid = vec![
        vec![1u16, 2, 1, 2, 5, 5],
        vec![3, 4, 3, 4, 5, 5],
        vec![1, 2, 1, 2, 6, 7],
        vec![3, 4, 3, 4, 8, 9],
    ];
    let (w, h) = (6, 4);
    let cells = flatten_cells(&grid);
    let mut best: Option<(usize, (usize, usize, usize, usize))> = None;
    for (bw, bh, ox, oy) in macro_jobs(w, h) {
        if let Some(r) = eval_combo(&cells, w, h, bw, bh, ox, oy) {
            if best.map_or(true, |(t, _)| r.total < t) {
                best = Some((r.total, (bw, bh, ox, oy)));
            }
        }
    }
    let (total, (bw, bh, ox, oy)) = best.unwrap();
    let (bytes, _) = encode_layer_macro(&grid, w, h, "fg");
    assert_eq!(&bytes[..5], &[0xFF, bw as u8, bh as u8, ox as u8, oy as u8]);
    assert_eq!(bytes.len(), total);
    assert!(!(bw == 1 && bh == 1) && bw * bh <= 48 && ox < bw && oy < bh);
}
