//! Index validation for the three color parameters, with the name tables
//! used to explain a rejected value.

use vstd::prelude::*;
use vstd::string::*;

verus! {

/// `c` is a decimal digit.
pub open spec fn is_digit(c: char) -> bool {
    48 <= c as int <= 57
}

/// The value of the digit `c`.
pub open spec fn digit_val(c: char) -> int {
    c as int - 48
}

/// The numeric body of the input: one optional leading `+` is stripped.
pub open spec fn parse_body(s: Seq<char>) -> Seq<char> {
    if s.len() > 0 && s[0] == '+' {
        s.drop_first()
    } else {
        s
    }
}

/// A nonempty, all-digit string.
pub open spec fn all_digits(s: Seq<char>) -> bool {
    s.len() > 0 && forall|i: int| 0 <= i < s.len() ==> is_digit(#[trigger] s[i])
}

/// The number a digit string denotes.
pub open spec fn digits_val(s: Seq<char>) -> int
    decreases s.len(),
{
    if s.len() == 0 {
        0
    } else {
        digits_val(s.drop_last()) * 10 + digit_val(s.last())
    }
}

/// The input parses as an unsigned machine integer: an optional `+`, then
/// digits only, denoting a value that fits.
pub open spec fn parses_as_usize(s: Seq<char>) -> bool {
    all_digits(parse_body(s)) && digits_val(parse_body(s)) <= usize::MAX
}

/// The digit character for `d`.
pub open spec fn digit_char(d: int) -> char {
    if d == 0 {
        '0'
    } else if d == 1 {
        '1'
    } else if d == 2 {
        '2'
    } else if d == 3 {
        '3'
    } else if d == 4 {
        '4'
    } else if d == 5 {
        '5'
    } else if d == 6 {
        '6'
    } else if d == 7 {
        '7'
    } else if d == 8 {
        '8'
    } else {
        '9'
    }
}

/// The decimal digits of `n`, most significant first.
pub open spec fn dec_spec(n: int) -> Seq<char>
    recommends
        n >= 0,
    decreases n,
{
    if n < 10 {
        seq![digit_char(n)]
    } else {
        dec_spec(n / 10) + seq![digit_char(n % 10)]
    }
}

/// A digit string denotes a non-negative number.
pub proof fn lemma_digits_val_nonneg(s: Seq<char>)
    requires
        forall|i: int| 0 <= i < s.len() ==> is_digit(#[trigger] s[i]),
    ensures
        digits_val(s) >= 0,
    decreases s.len(),
{
    if s.len() > 0 {
        lemma_digits_val_nonneg(s.drop_last());
    }
}

/// Reading one more digit multiplies the prefix value by ten.
pub proof fn lemma_digits_val_take_step(s: Seq<char>, i: int)
    requires
        0 <= i < s.len(),
    ensures
        digits_val(s.take(i + 1)) == digits_val(s.take(i)) * 10 + digit_val(s[i]),
{
    assert(s.take(i + 1).drop_last() =~= s.take(i));
    assert(s.take(i + 1).last() == s[i]);
}

/// A digit string is worth at least any of its prefixes.
pub proof fn lemma_digits_val_prefix(s: Seq<char>, i: int)
    requires
        0 <= i <= s.len(),
        forall|j: int| 0 <= j < s.len() ==> is_digit(#[trigger] s[j]),
    ensures
        digits_val(s) >= digits_val(s.take(i)),
    decreases s.len() - i,
{
    if i == s.len() {
        assert(s.take(i) =~= s);
    } else {
        lemma_digits_val_take_step(s, i);
        lemma_digits_val_prefix(s, i + 1);
        assert(forall|j: int| 0 <= j < s.take(i).len() ==> is_digit(#[trigger] s.take(i)[j]));
        lemma_digits_val_nonneg(s.take(i));
    }
}

/// Parses the input as an unsigned machine integer: an optional leading `+`,
/// then decimal digits.  `None` exactly on empty or malformed input and on
/// values too large to fit.
pub fn parse_usize(s: &str) -> (r: Option<usize>)
    ensures
        match r {
            Some(v) => parses_as_usize(s@) && v == digits_val(parse_body(s@)),
            None => !parses_as_usize(s@),
        },
{
    let len = s.unicode_len();
    if len == 0 {
        return None;
    }
    let first = s.get_char(0);
    let start: usize = if first == '+' {
        1
    } else {
        0
    };
    let ghost body = parse_body(s@);
    proof {
        if first == '+' {
            assert(body =~= s@.drop_first());
        }
        assert(body.len() == len - start);
    }
    if len == start {
        return None;
    }
    let mut acc: usize = 0;
    let mut i: usize = start;
    while i < len
        invariant
            start <= i <= len,
            len == s@.len(),
            start == 1 ==> s@[0] == '+',
            start == 0 || start == 1,
            body == parse_body(s@),
            body.len() == len - start,
            forall|j: int| 0 <= j < body.len() ==> body[j] == s@[j + start],
            forall|j: int| 0 <= j < i - start ==> is_digit(#[trigger] body[j]),
            acc == digits_val(body.take(i - start)),
        decreases len - i,
    {
        let c = s.get_char(i);
        proof {
            assert(body[i - start] == s@[i as int]);
        }
        let cu = c as u32;
        proof {
            assert(c as int == cu as int);
        }
        if !(cu >= 48 && cu <= 57) {
            proof {
                assert(!is_digit(body[i - start]));
                assert(!all_digits(body));
            }
            return None;
        }
        let d = (cu - 48) as usize;
        proof {
            assert(digit_val(body[i - start]) == d);
        }
        if acc > (usize::MAX - d) / 10 {
            proof {
                let t = i - start;
                lemma_digits_val_take_step(body, t);
                assert(digits_val(body.take(t + 1)) == acc * 10 + d);
                assert(usize::MAX - d < acc * 10) by (nonlinear_arith)
                    requires
                        acc > (usize::MAX - d) / 10,
                        d <= 9,
                ;
                if all_digits(body) {
                    lemma_digits_val_prefix(body, t + 1);
                    assert(digits_val(body) > usize::MAX);
                }
                assert(!parses_as_usize(s@));
            }
            return None;
        }
        proof {
            let t = i - start;
            lemma_digits_val_take_step(body, t);
            assert(acc * 10 + d <= usize::MAX) by (nonlinear_arith)
                requires
                    acc <= (usize::MAX - d) / 10,
                    d <= 9,
            ;
            assert(digits_val(body.take(t + 1)) == acc * 10 + d);
        }
        acc = acc * 10 + d;
        i = i + 1;
    }
    proof {
        assert(body.take(len - start) =~= body);
        assert(all_digits(body));
    }
    Some(acc)
}

/// The color primary names, by index.
pub open spec fn color_primary_names() -> Seq<Seq<char>> {
    seq![
        "Reserved"@,
        "ITU-R BT.709"@,
        "Unspecified"@,
        "Reserved"@,
        "ITU-R BT.470M"@,
        "ITU-R BT.470BG"@,
        "SMPTE 170M"@,
        "SMPTE 240M"@,
        "FILM"@,
        "ITU-R BT.2020"@,
        "SMPTE ST 428-1"@,
        "DCI P3"@,
        "P3 D65"@,
    ]
}

/// The transfer function names, by index.
pub open spec fn transfer_function_names() -> Seq<Seq<char>> {
    seq![
        "Reserved"@,
        "ITU-R BT.709"@,
        "Unspecified"@,
        "Reserved"@,
        "Gamma 2.2 curve"@,
        "Gamma 2.8 curve"@,
        "SMPTE 170M"@,
        "SMPTE 240M"@,
        "Linear"@,
        "Log"@,
        "Log Sqrt"@,
        "IEC 61966-2-4"@,
        "ITU-R BT.1361 Extended Colour Gamut"@,
        "IEC 61966-2-1"@,
        "ITU-R BT.2020 10 bit"@,
        "ITU-R BT.2020 12 bit"@,
        "SMPTE ST 2084 (PQ)"@,
        "SMPTE ST 428-1"@,
        "ARIB STD-B67 (HLG)"@,
    ]
}

/// The matrix coefficient names, by index.
pub open spec fn matrix_names() -> Seq<Seq<char>> {
    seq![
        "GBR"@,
        "BT709"@,
        "Unspecified"@,
        "Reserved"@,
        "FCC"@,
        "BT470BG"@,
        "SMPTE 170M"@,
        "SMPTE 240M"@,
        "YCOCG"@,
        "BT2020 Non-constant Luminance"@,
        "BT2020 Constant Luminance"@,
        "SMPTE ST 2085 (2015)"@,
        "Chromaticity-derived non-constant luminance system"@,
        "Chromaticity-derived constant luminance system"@,
        "Rec. ITU-R BT.2100-0 ICTCP"@,
    ]
}

/// The color primary name for an index, if the index is in range.
pub fn get_color_primary_name(index: u8) -> (r: Option<&'static str>)
    ensures
        match r {
            Some(name) => index < 13 && name@ == color_primary_names()[index as int],
            None => index >= 13,
        },
{
    match index {
        0 => Some("Reserved"),
        1 => Some("ITU-R BT.709"),
        2 => Some("Unspecified"),
        3 => Some("Reserved"),
        4 => Some("ITU-R BT.470M"),
        5 => Some("ITU-R BT.470BG"),
        6 => Some("SMPTE 170M"),
        7 => Some("SMPTE 240M"),
        8 => Some("FILM"),
        9 => Some("ITU-R BT.2020"),
        10 => Some("SMPTE ST 428-1"),
        11 => Some("DCI P3"),
        12 => Some("P3 D65"),
        _ => None,
    }
}

/// The transfer function name for an index, if the index is in range.
pub fn get_transfer_function_name(index: u8) -> (r: Option<&'static str>)
    ensures
        match r {
            Some(name) => index < 19 && name@ == transfer_function_names()[index as int],
            None => index >= 19,
        },
{
    match index {
        0 => Some("Reserved"),
        1 => Some("ITU-R BT.709"),
        2 => Some("Unspecified"),
        3 => Some("Reserved"),
        4 => Some("Gamma 2.2 curve"),
        5 => Some("Gamma 2.8 curve"),
        6 => Some("SMPTE 170M"),
        7 => Some("SMPTE 240M"),
        8 => Some("Linear"),
        9 => Some("Log"),
        10 => Some("Log Sqrt"),
        11 => Some("IEC 61966-2-4"),
        12 => Some("ITU-R BT.1361 Extended Colour Gamut"),
        13 => Some("IEC 61966-2-1"),
        14 => Some("ITU-R BT.2020 10 bit"),
        15 => Some("ITU-R BT.2020 12 bit"),
        16 => Some("SMPTE ST 2084 (PQ)"),
        17 => Some("SMPTE ST 428-1"),
        18 => Some("ARIB STD-B67 (HLG)"),
        _ => None,
    }
}

/// The matrix coefficient name for an index, if the index is in range.
pub fn get_matrix_name(index: u8) -> (r: Option<&'static str>)
    ensures
        match r {
            Some(name) => index < 15 && name@ == matrix_names()[index as int],
            None => index >= 15,
        },
{
    match index {
        0 => Some("GBR"),
        1 => Some("BT709"),
        2 => Some("Unspecified"),
        3 => Some("Reserved"),
        4 => Some("FCC"),
        5 => Some("BT470BG"),
        6 => Some("SMPTE 170M"),
        7 => Some("SMPTE 240M"),
        8 => Some("YCOCG"),
        9 => Some("BT2020 Non-constant Luminance"),
        10 => Some("BT2020 Constant Luminance"),
        11 => Some("SMPTE ST 2085 (2015)"),
        12 => Some("Chromaticity-derived non-constant luminance system"),
        13 => Some("Chromaticity-derived constant luminance system"),
        14 => Some("Rec. ITU-R BT.2100-0 ICTCP"),
        _ => None,
    }
}

/// The one-character string for a digit.
fn digit_str(d: u8) -> (r: &'static str)
    requires
        d < 10,
    ensures
        r@ == seq![digit_char(d as int)],
{
    proof {
        reveal_strlit("0");
        reveal_strlit("1");
        reveal_strlit("2");
        reveal_strlit("3");
        reveal_strlit("4");
        reveal_strlit("5");
        reveal_strlit("6");
        reveal_strlit("7");
        reveal_strlit("8");
        reveal_strlit("9");
    }
    let r: &'static str = match d {
        0 => "0",
        1 => "1",
        2 => "2",
        3 => "3",
        4 => "4",
        5 => "5",
        6 => "6",
        7 => "7",
        8 => "8",
        _ => "9",
    };
    proof {
        assert(r@ =~= seq![digit_char(d as int)]);
    }
    r
}

/// The decimal spelling of a small number.
pub fn u8_to_string(v: u8) -> (r: String)
    ensures
        r@ == dec_spec(v as int),
    decreases v,
{
    if v < 10 {
        String::from_str(digit_str(v))
    } else {
        let r = u8_to_string(v / 10).concat(digit_str(v % 10));
        proof {
            assert(r@ =~= dec_spec(v as int));
        }
        r
    }
}

/// The complaint for input that is no number at all.
pub open spec fn parse_err_msg(s: Seq<char>, what: Seq<char>) -> Seq<char> {
    "`"@ + s + "` isn't a "@ + what + " index number"@
}

/// One line of the valid-value listing: the index and its name.
pub open spec fn name_line(names: Seq<Seq<char>>, i: int) -> Seq<char> {
    "\t"@ + dec_spec(i) + " - "@ + names[i] + "\n"@
}

/// The first `i` lines of the valid-value listing.
pub open spec fn name_lines_upto(names: Seq<Seq<char>>, i: int) -> Seq<char>
    recommends
        0 <= i <= names.len(),
    decreases i,
{
    if i <= 0 {
        Seq::empty()
    } else {
        name_lines_upto(names, i - 1) + name_line(names, i - 1)
    }
}

/// The complaint for a number outside the legal range: every legal index
/// with its name.
pub open spec fn range_err_msg(names: Seq<Seq<char>>) -> Seq<char> {
    "\nValid values are: \n"@ + name_lines_upto(names, names.len() as int)
}

/// The input parses and its value is within the table.
pub open spec fn value_check_ok(s: Seq<char>, names: Seq<Seq<char>>) -> bool {
    parses_as_usize(s) && digits_val(parse_body(s)) < names.len()
}

/// Parses an index and checks it against its table of legal values, `names`.
/// `Ok` exactly when the input denotes a number below the table's length:
/// then the number itself.  Otherwise the error explains: for a malformed
/// number it cites the input and `error_message`, the parameter's name; for
/// an out-of-range one it lists every legal value.
pub fn value_check(s: &str, error_message: &str, names: &Vec<&'static str>) -> (r: Result<
    u8,
    String,
>)
    requires
        names@.len() <= 256,
    ensures
        match r {
            Ok(v) => value_check_ok(s@, names@.map_values(|n: &str| n@)) && v == digits_val(
                parse_body(s@),
            ),
            Err(msg) => !value_check_ok(s@, names@.map_values(|n: &str| n@)) && msg@ == {
                if !parses_as_usize(s@) {
                    parse_err_msg(s@, error_message@)
                } else {
                    range_err_msg(names@.map_values(|n: &str| n@))
                }
            },
        },
{
    let ghost table = names@.map_values(|n: &str| n@);
    let parsed = parse_usize(s);
    match parsed {
        None => {
            let mut msg = String::from_str("`");
            msg.append(s);
            msg.append("` isn't a ");
            msg.append(error_message);
            msg.append(" index number");
            proof {
                assert(msg@ =~= parse_err_msg(s@, error_message@));
            }
            Err(msg)
        },
        Some(value) => {
            if value < names.len() {
                proof {
                    lemma_digits_val_nonneg(parse_body(s@));
                }
                Ok(value as u8)
            } else {
                let mut msg = String::from_str("\nValid values are: \n");
                let mut i: usize = 0;
                while i < names.len()
                    invariant
                        0 <= i <= names@.len(),
                        names@.len() <= 256,
                        table == names@.map_values(|n: &str| n@),
                        msg@ == "\nValid values are: \n"@ + name_lines_upto(table, i as int),
                    decreases names@.len() - i,
                {
                    msg.append("\t");
                    let num = u8_to_string(i as u8);
                    msg.append(num.as_str());
                    msg.append(" - ");
                    msg.append(names[i]);
                    msg.append("\n");
                    proof {
                        assert(table[i as int] == names@[i as int]@);
                        assert(msg@ =~= "\nValid values are: \n"@ + name_lines_upto(
                            table,
                            i as int + 1,
                        ));
                    }
                    i = i + 1;
                }
                proof {
                    assert(msg@ =~= range_err_msg(table));
                }
                Err(msg)
            }
        },
    }
}

/// Checks a color primaries index given on the command line.
pub fn color_primaries_value_check(s: &str) -> (r: Result<u8, String>)
    ensures
        match r {
            Ok(v) => value_check_ok(s@, color_primary_names()) && v == digits_val(parse_body(s@)),
            Err(msg) => !value_check_ok(s@, color_primary_names()) && msg@ == {
                if !parses_as_usize(s@) {
                    parse_err_msg(s@, "color primary"@)
                } else {
                    range_err_msg(color_primary_names())
                }
            },
        },
{
    let names = color_primary_name_vec();
    proof {
        assert(names@.len() == names@.map_values(|n: &str| n@).len());
        assert(color_primary_names().len() <= 256);
    }
    value_check(s, "color primary", &names)
}

/// Checks a transfer characteristics index given on the command line.
pub fn transfer_characteristics_value_check(s: &str) -> (r: Result<u8, String>)
    ensures
        match r {
            Ok(v) => value_check_ok(s@, transfer_function_names()) && v == digits_val(
                parse_body(s@),
            ),
            Err(msg) => !value_check_ok(s@, transfer_function_names()) && msg@ == {
                if !parses_as_usize(s@) {
                    parse_err_msg(s@, "transfer function"@)
                } else {
                    range_err_msg(transfer_function_names())
                }
            },
        },
{
    let names = transfer_function_name_vec();
    proof {
        assert(names@.len() == names@.map_values(|n: &str| n@).len());
        assert(transfer_function_names().len() <= 256);
    }
    value_check(s, "transfer function", &names)
}

/// Checks a matrix coefficients index given on the command line.
pub fn matrix_coefficients_value_check(s: &str) -> (r: Result<u8, String>)
    ensures
        match r {
            Ok(v) => value_check_ok(s@, matrix_names()) && v == digits_val(parse_body(s@)),
            Err(msg) => !value_check_ok(s@, matrix_names()) && msg@ == {
                if !parses_as_usize(s@) {
                    parse_err_msg(s@, "matrix"@)
                } else {
                    range_err_msg(matrix_names())
                }
            },
        },
{
    let names = matrix_name_vec();
    proof {
        assert(names@.len() == names@.map_values(|n: &str| n@).len());
        assert(matrix_names().len() <= 256);
    }
    value_check(s, "matrix", &names)
}

/// The color primary name table as a vector.
fn color_primary_name_vec() -> (r: Vec<&'static str>)
    ensures
        r@.map_values(|n: &str| n@) == color_primary_names(),
{
    let r = vec![
        "Reserved",
        "ITU-R BT.709",
        "Unspecified",
        "Reserved",
        "ITU-R BT.470M",
        "ITU-R BT.470BG",
        "SMPTE 170M",
        "SMPTE 240M",
        "FILM",
        "ITU-R BT.2020",
        "SMPTE ST 428-1",
        "DCI P3",
        "P3 D65",
    ];
    proof {
        assert(r@.map_values(|n: &str| n@) =~= color_primary_names());
    }
    r
}

/// The transfer function name table as a vector.
fn transfer_function_name_vec() -> (r: Vec<&'static str>)
    ensures
        r@.map_values(|n: &str| n@) == transfer_function_names(),
{
    let r = vec![
        "Reserved",
        "ITU-R BT.709",
        "Unspecified",
        "Reserved",
        "Gamma 2.2 curve",
        "Gamma 2.8 curve",
        "SMPTE 170M",
        "SMPTE 240M",
        "Linear",
        "Log",
        "Log Sqrt",
        "IEC 61966-2-4",
        "ITU-R BT.1361 Extended Colour Gamut",
        "IEC 61966-2-1",
        "ITU-R BT.2020 10 bit",
        "ITU-R BT.2020 12 bit",
        "SMPTE ST 2084 (PQ)",
        "SMPTE ST 428-1",
        "ARIB STD-B67 (HLG)",
    ];
    proof {
        assert(r@.map_values(|n: &str| n@) =~= transfer_function_names());
    }
    r
}

/// The matrix coefficient name table as a vector.
fn matrix_name_vec() -> (r: Vec<&'static str>)
    ensures
        r@.map_values(|n: &str| n@) == matrix_names(),
{
    let r = vec![
        "GBR",
        "BT709",
        "Unspecified",
        "Reserved",
        "FCC",
        "BT470BG",
        "SMPTE 170M",
        "SMPTE 240M",
        "YCOCG",
        "BT2020 Non-constant Luminance",
        "BT2020 Constant Luminance",
        "SMPTE ST 2085 (2015)",
        "Chromaticity-derived non-constant luminance system",
        "Chromaticity-derived constant luminance system",
        "Rec. ITU-R BT.2100-0 ICTCP",
    ];
    proof {
        assert(r@.map_values(|n: &str| n@) =~= matrix_names());
    }
    r
}

} // verus!

