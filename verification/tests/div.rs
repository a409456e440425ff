use decimax::Dec128;

type Dec = Dec128;

#[test]
fn div_base() {
    // divide by 0
    let a = Dec::from_parts(100, 2);
    assert!(a.checked_div(Dec::zero()).is_none());

    // small
    for n_man_exp in [0, 4, 10, 25, 36] {
        let n_man = 10_i128.pow(n_man_exp);
        for n_scale in [0, 4, 10, 25, 36] {
            for d_man in [1, 9, 59, 99, 127] {
                for d_scale in [0, 4, 10, 25, 36] {
                    let (n, d) = match (Dec::try_from_parts(n_man, n_scale), Dec::try_from_parts(d_man, d_scale)) {
                        (Some(n), Some(d)) => (n, d),
                        _ => continue,
                    };
                    if let Some(q) = n.checked_div(d) {
                        let p = d * q;
                        let diff = n - p;
                        assert!(diff.abs() * 2 <= d);
                    }
                }
            }
        }
    }
}
