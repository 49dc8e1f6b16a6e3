use lavaxemu_core::parse_scale;

#[test]
fn accepts_scales_from_one_to_eight() {
    assert_eq!(parse_scale("3"), Ok(3));
    assert_eq!(parse_scale("+8"), Ok(8));
    assert_eq!(parse_scale("1"), Ok(1));
}

#[test]
fn rejects_other_scales() {
    assert_eq!(parse_scale("0"), Err("scale must be between 1 and 8".to_owned()));
    assert_eq!(parse_scale("9"), Err("scale must be between 1 and 8".to_owned()));
    assert_eq!(parse_scale("x"), Err("scale must be an integer".to_owned()));
    assert_eq!(parse_scale(""), Err("scale must be an integer".to_owned()));
    assert_eq!(parse_scale("+"), Err("scale must be an integer".to_owned()));
    assert_eq!(parse_scale("-1"), Err("scale must be an integer".to_owned()));
    assert_eq!(parse_scale("99999999999999999999999"), Err("scale must be an integer".to_owned()));
}
