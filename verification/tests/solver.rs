use shoehorn::ggml_type::GgmlType;
use shoehorn::solver::{solve, Candidate, TensorChoices};

fn tc(idx: usize, opts: &[(u64, u64)]) -> TensorChoices {
    TensorChoices {
        tensor_idx: idx,
        cands: opts
            .iter()
            .map(|&(bytes, err)| Candidate { ty: GgmlType::Q4_0, bytes, err })
            .collect(),
    }
}

fn size(ts: &[TensorChoices], sel: &[usize]) -> u64 {
    ts.iter().zip(sel).map(|(t, &i)| t.cands[i].bytes).sum()
}

#[test]
fn picks_max_quality_when_it_fits() {
    let ts = vec![tc(0, &[(10, 50), (20, 10)]), tc(1, &[(10, 50), (20, 10)])];
    let sel = solve(&ts, 100).unwrap();
    assert_eq!(sel, vec![1, 1]);
}

#[test]
fn respects_budget() {
    let ts = vec![tc(0, &[(10, 50), (20, 10)]), tc(1, &[(10, 50), (20, 49)])];
    let sel = solve(&ts, 30).unwrap();
    // one upgrade affordable; tensor 0 has the better gain
    assert_eq!(sel, vec![1, 0]);
}

#[test]
fn infeasible() {
    let ts = vec![tc(0, &[(10, 50)])];
    assert!(solve(&ts, 5).is_none());
}

#[test]
fn exact_fit_of_the_smallest_mix_is_taken() {
    let ts = vec![tc(0, &[(10, 50), (20, 10)]), tc(1, &[(7, 3)])];
    assert_eq!(solve(&ts, 17).unwrap(), vec![0, 0]);
    assert!(solve(&ts, 16).is_none());
}

#[test]
fn nothing_to_solve_is_solved() {
    assert_eq!(solve(&[], 0).unwrap(), Vec::<usize>::new());
}

#[test]
fn of_equal_errors_the_first_is_taken() {
    let ts = vec![tc(0, &[(10, 5), (20, 5), (30, 5)])];
    assert_eq!(solve(&ts, 100).unwrap(), vec![0]);
}

#[test]
fn slack_goes_to_the_best_gain_per_byte() {
    let ts = vec![
        tc(0, &[(10, 1000), (40, 100)]),
        tc(1, &[(10, 1000), (20, 600)]),
        tc(2, &[(10, 1000), (20, 900)]),
    ];
    for budget in 30..=90u64 {
        let sel = solve(&ts, budget).unwrap();
        let total = size(&ts, &sel);
        assert!(total <= budget);
        // no single upgrade is left within the slack
        for (t, &cur) in ts.iter().zip(&sel) {
            for c in &t.cands {
                let better = c.bytes > t.cands[cur].bytes && c.err < t.cands[cur].err;
                assert!(!better || c.bytes - t.cands[cur].bytes > budget - total);
            }
        }
    }
    assert_eq!(solve(&ts, 40).unwrap(), vec![0, 1, 0]);
    assert_eq!(solve(&ts, 60).unwrap(), vec![0, 1, 1]);
    assert_eq!(solve(&ts, 80).unwrap(), vec![1, 1, 1]);
}

#[test]
fn extreme_numbers_do_not_overflow() {
    let ts = vec![
        tc(0, &[(0, u64::MAX), (u64::MAX, 0)]),
        tc(1, &[(1, u64::MAX), (u64::MAX, u64::MAX - 1)]),
    ];
    assert_eq!(solve(&ts, u64::MAX).unwrap(), vec![0, 1]);
    assert_eq!(solve(&ts[..1], u64::MAX).unwrap(), vec![1]);
}
