use monument::bell::Stage;
use monument::mask::{Mask, MultipleStars};
use monument::music::Pattern;
use monument::row::RowBuf;

#[test]
fn from_pattern() {
    fn check_ok(pattern: &str, num_bells: u8, mask: &str) {
        let pattern = Pattern::parse(pattern, Stage::new(num_bells)).unwrap();
        assert_eq!(Mask::from_pattern(&pattern), Ok(Mask::parse(mask)));
    }
    fn check_err(pattern: &str, num_bells: u8) {
        let pattern = Pattern::parse(pattern, Stage::new(num_bells)).unwrap();
        assert_eq!(Mask::from_pattern(&pattern), Err(MultipleStars));
    }

    check_ok("xxx3", 4, "xxx3");
    check_ok("*3", 4, "xxx3");
    check_ok("3*", 4, "3xxx");
    check_ok("3*", 6, "3xxxxx");
    check_ok("3*x", 6, "3xxxxx");
    check_ok("3**x", 6, "3xxxxx"); // Doesn't error because stars are normalised
    check_ok("3*xx*", 6, "3xxxxx"); // Doesn't error because stars are normalised
    check_ok("3*4", 6, "3xxxx4");
    check_ok("3*x4", 6, "3xxxx4");
    check_ok("*78", 8, "xxxxxx78");

    check_err("5*3*8", 8);
    check_err("*5*", 8);
}

#[test]
fn matches() {
    fn check(mask: &str, row: &str, exp_match: bool) {
        let is_match = Mask::parse(mask).matches(&RowBuf::parse(row).unwrap());
        match (is_match, exp_match) {
            (true, false) => panic!("'{}' unexpectedly matched '{}'", mask, row),
            (false, true) => panic!("'{}' unexpectedly didn't match '{}'", row, mask),
            _ => {}
        }
    }

    check("1xx45", "12345", true);
    check("x", "1", true);
    check("1", "1", true);
    check("123456", "123456", true);
    check("123456", "123465", false);
    check("123456", "1234567", false);
    check("x1xx56", "123456", false);
    check("x1xx56", "214356", true);
    check("x1xx56", "241356", false);
}

#[test]
fn row_mul_mask() {
    fn check_ok(row: &str, mask: &str, exp_mask_str: &str) {
        let new_mask = RowBuf::parse(row).unwrap().mul_mask(&Mask::parse(mask));
        let exp_mask = Mask::parse(exp_mask_str);
        assert_eq!(
            new_mask,
            exp_mask,
            "{} * {} gave {} (expected {})",
            row,
            mask,
            format!("{:?}", new_mask),
            exp_mask_str
        );
    }

    check_ok("12345", "1xx45", "1xx45");
    check_ok("32154", "1xx45", "3xx54");
    check_ok("67812345", "xxxx6578", "xxxx3245");
}

#[test]
fn mask_mul_row() {
    fn check_ok(mask: &str, row: &str, exp_mask_str: &str) {
        let new_mask = Mask::parse(mask).mul(&RowBuf::parse(row).unwrap());
        let exp_mask = Mask::parse(exp_mask_str);
        assert_eq!(
            new_mask,
            exp_mask,
            "{} * {} gave {} (expected {})",
            mask,
            row,
            format!("{:?}", new_mask),
            exp_mask_str
        );
    }

    check_ok("1xx45", "12345", "1xx45");
    check_ok("1xx45", "32154", "xx154");
    check_ok("xxxx6578", "67812345", "578xxxx6");
}
