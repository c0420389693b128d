use jbm::sampling::{
    parse_sample_probability, ProbabilityError, DEFAULT_SAMPLE_PROBABILITY, SELECT_ALL,
};

#[test]
fn probabilities_give_thresholds() {
    assert_eq!(parse_sample_probability(DEFAULT_SAMPLE_PROBABILITY), Ok(4_294_967));
    assert_eq!(parse_sample_probability("0.5"), Ok(0x8000_0000));
    assert_eq!(parse_sample_probability(".25"), Ok(0x4000_0000));
    assert_eq!(parse_sample_probability("0.1"), Ok(429_496_729));
    assert_eq!(parse_sample_probability("0.9999999999"), Ok(0xffff_ffff));
    assert_eq!(parse_sample_probability("0.0000000002"), Ok(0));
    assert_eq!(parse_sample_probability("0.00000000023283064365386962890625"), Ok(1));
    assert_eq!(parse_sample_probability("0.00000000023283064365386962890624"), Ok(0));
}

#[test]
fn zero_is_none_and_one_is_all() {
    for zero in ["0", "00", "0.", ".0", "0.000"] {
        assert_eq!(parse_sample_probability(zero), Ok(0));
    }
    for one in ["1", "001", "1.", "1.000"] {
        assert_eq!(parse_sample_probability(one), Ok(SELECT_ALL));
    }
    assert_eq!(SELECT_ALL, 1 << 32);
}

#[test]
fn more_than_one_is_out_of_range() {
    for number in ["2", "10", "1.0000000000000000000000000001", "11", "9.9", "100000"] {
        assert_eq!(
            parse_sample_probability(number),
            Err(ProbabilityError::OutOfRange)
        );
    }
}

#[test]
fn what_is_no_number_is_refused() {
    for text in ["", ".", "-0.1", "0.1.2", "1e-3", " 0.5", "0,5", "one", "0.x", "x.0"] {
        assert_eq!(
            parse_sample_probability(text),
            Err(ProbabilityError::NotANumber)
        );
    }
}
