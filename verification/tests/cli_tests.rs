use aurora::cli::{
    parse_pixel_value, parse_resolution_value, validate_pixel_value, validate_resolution_value,
};

#[test]
fn pixel_values_parse() {
    assert!(validate_pixel_value(String::from("12,34")).is_ok());
    assert_eq!(parse_pixel_value("12,34"), (12, 34));
    assert_eq!(parse_pixel_value("0,0"), (0, 0));
    assert_eq!(parse_pixel_value("+7,8"), (7, 8));
    assert_eq!(parse_pixel_value("4294967295,1"), (4294967295, 1));
}

#[test]
fn pixel_values_reject_bad_formats() {
    assert!(validate_pixel_value(String::from("")).is_err());
    assert!(validate_pixel_value(String::from("12")).is_err());
    assert!(validate_pixel_value(String::from("1,2,3")).is_err());
    assert!(validate_pixel_value(String::from(",")).is_err());
    assert!(validate_pixel_value(String::from("a,2")).is_err());
    assert!(validate_pixel_value(String::from("1,b")).is_err());
    assert!(validate_pixel_value(String::from("-1,2")).is_err());
    assert!(validate_pixel_value(String::from("1.5,2")).is_err());
    // one past u32::MAX
    assert!(validate_pixel_value(String::from("4294967296,1")).is_err());
    assert!(validate_pixel_value(String::from("1 ,2")).is_err());
}

#[test]
fn pixel_validation_matches_standard_parser() {
    for input in ["12,34", "+0,+0", "004,005", "99999999999999999999,1", "1,", ",1", "ä,5"] {
        let parts: Vec<&str> = input.split(',').collect();
        let std_ok = parts.len() == 2
            && parts[0].parse::<u32>().is_ok()
            && parts[1].parse::<u32>().is_ok();
        assert_eq!(validate_pixel_value(String::from(input)).is_ok(), std_ok);
    }
}

#[test]
fn resolution_values_parse() {
    assert!(validate_resolution_value(String::from("1920x1080")).is_ok());
    assert_eq!(parse_resolution_value("1920x1080"), (1920, 1080));
    assert_eq!(parse_resolution_value("640X480"), (640, 480));
    assert_eq!(parse_resolution_value("+1x+2"), (1, 2));
}

#[test]
fn resolution_values_reject_bad_formats() {
    assert!(validate_resolution_value(String::from("1920")).is_err());
    assert!(validate_resolution_value(String::from("1920x1080x3")).is_err());
    assert!(validate_resolution_value(String::from("1920xX1080")).is_err());
    assert!(validate_resolution_value(String::from("x")).is_err());
    assert!(validate_resolution_value(String::from("axb")).is_err());
    assert!(validate_resolution_value(String::from("4294967296x1")).is_err());
}
