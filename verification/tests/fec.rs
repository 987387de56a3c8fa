use udpcast::fec::{fec_decode, fec_encode, fec_init, fec_license_text, modnn};
use udpcast::matrix::invert_mat;

fn noise(seed: &mut u32, len: usize) -> Vec<u8> {
    let mut blk = vec![0u8; len];
    for b in blk.iter_mut() {
        *seed = seed.wrapping_mul(1103515245).wrapping_add(12345);
        *b = ((*seed >> 16) & 0xff) as u8;
    }
    blk
}

#[test]
fn fec_round_trip() {
    let t = fec_init();
    let block_size = 256usize;
    let k = 10usize;
    let r = 4usize;

    let mut data: Vec<Vec<u8>> = Vec::new();
    let mut seed: u32 = 0x1234567;
    for _ in 0..k {
        data.push(noise(&mut seed, block_size));
    }
    let original = data.clone();

    let mut fec: Vec<Vec<u8>> = vec![vec![0u8; block_size]; r];
    fec_encode(&t, block_size, &data, &mut fec);

    let erased: Vec<u32> = vec![1, 4, 7];
    for &e in &erased {
        data[e as usize] = vec![0u8; block_size];
    }

    let n = erased.len();
    let fec_sel: Vec<Vec<u8>> = fec[..n].to_vec();
    let fec_nos: Vec<u32> = (0..n as u32).collect();

    let ok = fec_decode(&t, block_size, &mut data, &fec_sel, &fec_nos, &erased);
    assert!(ok, "fec_decode should succeed");

    for &e in &erased {
        assert_eq!(
            data[e as usize], original[e as usize],
            "erased block {} not recovered",
            e
        );
    }
}

#[test]
fn fec_multi_stripe_wire_layout() {
    let t = fec_init();
    let block_size = 256usize;
    let nr_data = 12usize;
    let stripes = 2usize;
    let redundancy = 3usize;

    let mut data: Vec<Vec<u8>> = Vec::new();
    let mut seed: u32 = 0xABC0D;
    for _ in 0..nr_data {
        data.push(noise(&mut seed, block_size));
    }
    let original = data.clone();

    let mut fec = vec![vec![0u8; block_size]; stripes * redundancy];
    for stripe in 0..stripes {
        let picked: Vec<Vec<u8>> = (stripe..nr_data)
            .step_by(stripes)
            .map(|p| data[p].clone())
            .collect();
        let mut parity = vec![vec![0u8; block_size]; redundancy];
        fec_encode(&t, block_size, &picked, &mut parity);
        for (r, row) in parity.into_iter().enumerate() {
            fec[stripe + r * stripes] = row;
        }
    }

    let erased_by_stripe: Vec<Vec<usize>> = vec![vec![2], vec![1]];
    let erased_global: Vec<usize> = erased_by_stripe
        .iter()
        .enumerate()
        .flat_map(|(stripe, es)| es.iter().map(move |&j| stripe + j * stripes))
        .collect();
    for g in &erased_global {
        data[*g] = vec![0u8; block_size];
    }

    for (stripe, es) in erased_by_stripe.iter().enumerate() {
        let nr_stripe = nr_data / stripes;
        let mut data_blocks: Vec<Vec<u8>> = (0..nr_stripe).map(|_| vec![0u8; block_size]).collect();
        for (j, p) in (stripe..nr_data).step_by(stripes).enumerate() {
            if !es.contains(&j) {
                data_blocks[j].copy_from_slice(&data[p]);
            }
        }
        let erased: Vec<u32> = es.iter().map(|&j| j as u32).collect();
        let mut fec_sel: Vec<Vec<u8>> = Vec::new();
        let mut fec_nos: Vec<u32> = Vec::new();
        for (bno, blk) in fec.iter().enumerate() {
            if bno % stripes == stripe {
                fec_sel.push(blk.clone());
                fec_nos.push((bno / stripes) as u32);
            }
        }
        fec_sel.truncate(es.len());
        fec_nos.truncate(es.len());
        let ok = fec_decode(&t, block_size, &mut data_blocks, &fec_sel, &fec_nos, &erased);
        assert!(ok, "stripe {} did not decode", stripe);
        for &j in es {
            let p = stripe + j * stripes;
            assert_eq!(
                data_blocks[j], original[p],
                "erased global block {} not recovered",
                p
            );
        }
    }
}

#[test]
fn license_text_matches_c() {
    let t = fec_license_text();
    let lines: Vec<&str> = t.lines().collect();

    assert!(t.ends_with('\n'));
    assert_eq!(lines.len(), 54);
    assert_eq!(lines[0], "   udpcast and its FEC code are free software");
    assert_eq!(lines[1], "");
    assert_eq!(lines[15], "   59 Temple Place - Suite 330, Boston, MA 02111-1307, USA.");
    assert_eq!(lines[17], "   Alain Knaff");
    assert_eq!(lines[21], "the FEC code is covered by the following license:");
    assert_eq!(
        lines[22],
        "fec.c -- forward error correction based on Vandermonde matrices"
    );
    assert_eq!(lines[23], "980624");
    assert_eq!(lines[24], "(C) 1997-98 Luigi Rizzo (luigi@iet.unipi.it)");
    assert_eq!(lines[25], "(C) 2001 Alain Knaff (alain@knaff.lu)");
    assert_eq!(
        lines[27],
        "Portions derived from code by Phil Karn (karn@ka9q.ampr.org),"
    );
    assert_eq!(
        lines[31],
        "Redistribution and use in source and binary forms, with or without"
    );
    assert_eq!(
        lines[32],
        "modification, are permitted provided that the following conditions"
    );
    assert_eq!(lines[42], "THIS SOFTWARE IS PROVIDED BY THE AUTHORS ``AS IS'' AND");
    assert_eq!(lines[53], "OF SUCH DAMAGE.");

    for needle in [
        "GNU General Public License",
        "Rizzo",
        "Karn",
        "Morelos-Zaragoza",
        "Thirumoorthy",
    ] {
        assert!(t.contains(needle), "missing {} in license text", needle);
    }
}

#[test]
fn field_multiplication() {
    let t = fec_init();
    assert_eq!(t.gf_mul(0, 77), 0);
    assert_eq!(t.gf_mul(1, 77), 77);
    assert_eq!(t.gf_mul(2, 0x80), 0x1d);
    assert_eq!(t.gf_mul(3, 7), 9);
    for x in 1..=255u8 {
        assert_eq!(t.gf_mul(x, t.gf_inv(x)), 1);
    }
    for x in [3u8, 99, 200] {
        for y in [5u8, 31, 254] {
            assert_eq!(t.gf_mul(x, y), t.gf_mul(y, x));
            assert_eq!(t.gf_mul(x, y ^ 17), t.gf_mul(x, y) ^ t.gf_mul(x, 17));
        }
    }
}

#[test]
fn modnn_reduces() {
    assert_eq!(modnn(0), 0);
    assert_eq!(modnn(254), 254);
    assert_eq!(modnn(255), 0);
    assert_eq!(modnn(300), 45);
    assert_eq!(modnn(510), 0);
}

#[test]
fn inverting_twice_gives_the_matrix_back() {
    let t = fec_init();
    let original = vec![vec![1u8, 2, 3], vec![4, 5, 6], vec![7, 8, 10]];
    let mut m = original.clone();
    assert!(invert_mat(&t, &mut m));
    for i in 0..3 {
        for j in 0..3 {
            let mut sum = 0u8;
            for k in 0..3 {
                sum ^= t.gf_mul(original[i][k], m[k][j]);
            }
            assert_eq!(sum, if i == j { 1 } else { 0 });
        }
    }
    assert!(invert_mat(&t, &mut m));
    assert_eq!(m, original);
}

#[test]
fn singular_matrix_is_refused() {
    let t = fec_init();
    let mut m = vec![vec![1u8, 2], vec![1, 2]];
    assert!(!invert_mat(&t, &mut m));
}

#[test]
fn every_three_of_five_parity_rows_repair() {
    let t = fec_init();
    let mut seed = 99u32;
    let data: Vec<Vec<u8>> = (0..6).map(|_| noise(&mut seed, 33)).collect();
    let mut fec = vec![vec![0u8; 33]; 5];
    fec_encode(&t, 33, &data, &mut fec);
    let erased = [0u32, 2, 5];
    for a in 0..5u32 {
        for b in a + 1..5 {
            for c in b + 1..5 {
                let mut damaged = data.clone();
                for &e in &erased {
                    damaged[e as usize] = vec![0xee; 33];
                }
                let sel = vec![
                    fec[a as usize].clone(),
                    fec[b as usize].clone(),
                    fec[c as usize].clone(),
                ];
                assert!(fec_decode(&t, 33, &mut damaged, &sel, &[a, b, c], &erased));
                assert_eq!(damaged, data);
            }
        }
    }
}

#[test]
fn the_same_row_twice_repairs_nothing() {
    let t = fec_init();
    let mut seed = 5u32;
    let data: Vec<Vec<u8>> = (0..4).map(|_| noise(&mut seed, 8)).collect();
    let mut fec = vec![vec![0u8; 8]; 2];
    fec_encode(&t, 8, &data, &mut fec);
    let mut damaged = data.clone();
    let sel = vec![fec[0].clone(), fec[0].clone()];
    assert!(!fec_decode(&t, 8, &mut damaged, &sel, &[0, 0], &[0, 1]));
}

#[test]
fn first_row_of_parity() {
    let t = fec_init();
    let data = vec![vec![1u8], vec![1u8]];
    let mut fec = vec![vec![0u8]];
    fec_encode(&t, 1, &data, &mut fec);
    assert_eq!(fec[0][0], t.gf_inv(128) ^ t.gf_inv(128 ^ 1));
}

#[test]
fn lost_blocks_may_be_listed_in_any_order() {
    let t = fec_init();
    let mut seed = 99u32;
    let data: Vec<Vec<u8>> = (0..6).map(|_| noise(&mut seed, 20)).collect();
    let mut parity = vec![vec![0u8; 20]; 3];
    fec_encode(&t, 20, &data, &mut parity);
    let mut broken = data.clone();
    for b in [1, 3, 5] {
        broken[b] = vec![0x77; 20];
    }
    assert!(fec_decode(&t, 20, &mut broken, &parity, &[0, 1, 2], &[5, 1, 3]));
    assert_eq!(broken, data);
}
