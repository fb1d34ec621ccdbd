use atom_modifier::{
    color_primaries_value_check, get_color_primary_name, get_matrix_name,
    get_transfer_function_name, matrix_coefficients_value_check, parse_usize,
    transfer_characteristics_value_check, value_check,
};

#[test]
fn color_primary_names_by_index() {
    assert_eq!(get_color_primary_name(0), Some("Reserved"));
    assert_eq!(get_color_primary_name(1), Some("ITU-R BT.709"));
    assert_eq!(get_color_primary_name(11), Some("DCI P3"));
    assert_eq!(get_color_primary_name(12), Some("P3 D65"));
    assert_eq!(get_color_primary_name(13), None);
    assert_eq!(get_color_primary_name(255), None);
}

#[test]
fn transfer_function_names_by_index() {
    assert_eq!(get_transfer_function_name(1), Some("ITU-R BT.709"));
    assert_eq!(get_transfer_function_name(4), Some("Gamma 2.2 curve"));
    assert_eq!(get_transfer_function_name(16), Some("SMPTE ST 2084 (PQ)"));
    assert_eq!(get_transfer_function_name(18), Some("ARIB STD-B67 (HLG)"));
    assert_eq!(get_transfer_function_name(19), None);
}

#[test]
fn matrix_names_by_index() {
    assert_eq!(get_matrix_name(0), Some("GBR"));
    assert_eq!(get_matrix_name(1), Some("BT709"));
    assert_eq!(get_matrix_name(14), Some("Rec. ITU-R BT.2100-0 ICTCP"));
    assert_eq!(get_matrix_name(15), None);
}

#[test]
fn parse_usize_accepts_plain_and_plus_prefixed_digits() {
    assert_eq!(parse_usize("0"), Some(0));
    assert_eq!(parse_usize("18"), Some(18));
    assert_eq!(parse_usize("+9"), Some(9));
    assert_eq!(parse_usize("007"), Some(7));
}

#[test]
fn parse_usize_rejects_malformed_input() {
    assert_eq!(parse_usize(""), None);
    assert_eq!(parse_usize("+"), None);
    assert_eq!(parse_usize("-1"), None);
    assert_eq!(parse_usize("1.5"), None);
    assert_eq!(parse_usize("abc"), None);
    assert_eq!(parse_usize("1 "), None);
    // Far beyond what a machine integer can hold.
    assert_eq!(parse_usize("99999999999999999999999999"), None);
}

#[test]
fn color_primaries_check_accepts_legal_indices() {
    assert_eq!(color_primaries_value_check("0"), Ok(0));
    assert_eq!(color_primaries_value_check("1"), Ok(1));
    assert_eq!(color_primaries_value_check("12"), Ok(12));
    assert_eq!(color_primaries_value_check("+3"), Ok(3));
}

#[test]
fn color_primaries_check_explains_a_malformed_number() {
    assert_eq!(
        color_primaries_value_check("abc"),
        Err("`abc` isn't a color primary index number".to_string())
    );
}

#[test]
fn color_primaries_check_lists_legal_values_for_out_of_range() {
    let expected = "\nValid values are: \n\
        \t0 - Reserved\n\
        \t1 - ITU-R BT.709\n\
        \t2 - Unspecified\n\
        \t3 - Reserved\n\
        \t4 - ITU-R BT.470M\n\
        \t5 - ITU-R BT.470BG\n\
        \t6 - SMPTE 170M\n\
        \t7 - SMPTE 240M\n\
        \t8 - FILM\n\
        \t9 - ITU-R BT.2020\n\
        \t10 - SMPTE ST 428-1\n\
        \t11 - DCI P3\n\
        \t12 - P3 D65\n";
    assert_eq!(color_primaries_value_check("13"), Err(expected.to_string()));
}

#[test]
fn transfer_characteristics_check_bounds() {
    assert_eq!(transfer_characteristics_value_check("18"), Ok(18));
    assert!(transfer_characteristics_value_check("19").is_err());
    assert_eq!(
        transfer_characteristics_value_check("x"),
        Err("`x` isn't a transfer function index number".to_string())
    );
}

#[test]
fn matrix_coefficients_check_bounds() {
    assert_eq!(matrix_coefficients_value_check("14"), Ok(14));
    assert!(matrix_coefficients_value_check("15").is_err());
    assert_eq!(
        matrix_coefficients_value_check("?"),
        Err("`?` isn't a matrix index number".to_string())
    );
}

#[test]
fn value_check_against_a_custom_table() {
    let names = vec!["zero", "one", "two"];
    assert_eq!(value_check("2", "small", &names), Ok(2));
    assert_eq!(
        value_check("no", "small", &names),
        Err("`no` isn't a small index number".to_string())
    );
    assert_eq!(
        value_check("3", "small", &names),
        Err("\nValid values are: \n\t0 - zero\n\t1 - one\n\t2 - two\n".to_string())
    );
}
