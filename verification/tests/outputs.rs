use hex_encoder::cli::{
    get_arguments, try_get_arguments, parse_output_format, parse_yes_no, render_binary, render_dance, render_octal,
    ArgumentError, OutputFormat,
};
use hex_encoder::file_utils::{
    center, dance_lines, octal_digits, encode_lookvec_to_dir, encode_movement_to_dir,
    encode_to_horizontal_dir, format_move, pad, translate_to_dance, translate_to_octal,
};

fn strings(v: &[&str]) -> Vec<String> {
    v.iter().map(|s| s.to_string()).collect()
}

fn chars(s: &str) -> Vec<char> {
    s.chars().collect()
}

#[test]
fn octal_groups_of_three() {
    assert_eq!(translate_to_octal(&strings(&["000101"])), vec![0u8, 5]);
}

#[test]
fn octal_rest_of_a_line() {
    assert_eq!(translate_to_octal(&strings(&["1111", "10"])), vec![7u8, 1, 2]);
}

#[test]
fn octal_digits_ignore_the_spaces() {
    assert_eq!(translate_to_octal(&strings(&["1 01 1"])), vec![5u8, 1]);
    assert_eq!(translate_to_octal(&strings(&["1 11"])), translate_to_octal(&strings(&["111"])));
    assert_eq!(translate_to_octal(&strings(&["1 11"])), vec![7u8]);
}

#[test]
fn octal_digits_are_below_eight() {
    let digits = translate_to_octal(&strings(&["111111111", "11", "1 1 1"]));
    assert!(digits.iter().all(|d| *d < 8));
}

#[test]
fn octal_readiness() {
    assert_eq!(octal_digits(&strings(&["   101", "10"])), Some(vec![5u8, 2]));
    assert_eq!(octal_digits(&strings(&["10 1 "])), Some(vec![5u8]));
    assert_eq!(octal_digits(&strings(&["102"])), None);
}

#[test]
fn octal_groups_read_as_from_str_radix_does() {
    // An optional plus sign before the digits.
    assert_eq!(octal_digits(&strings(&["+01"])), Some(vec![1u8]));
    // Characters left over after the whole groups of three must be digits.
    assert_eq!(octal_digits(&strings(&["1112  "])), None);
    // The last partial group is counted in bytes.
    assert_eq!(octal_digits(&strings(&["111\u{20ac}"])), Some(vec![7u8]));
    assert_eq!(octal_digits(&strings(&["11\u{e9}"])), None);
}

#[test]
fn horizontal_directions() {
    assert_eq!(encode_to_horizontal_dir(&chars("000")), Some(chars("North")));
    assert_eq!(encode_to_horizontal_dir(&chars("111")), Some(chars("Southeast")));
    assert_eq!(encode_to_horizontal_dir(&chars("012")), None);
}

#[test]
fn look_and_move_directions() {
    assert_eq!(encode_lookvec_to_dir(&chars("0000")), (4, chars("Up")));
    assert_eq!(encode_lookvec_to_dir(&chars("0001")), (4, chars("Down")));
    assert_eq!(encode_lookvec_to_dir(&chars("1011")), (3, chars("Northeast")));
    assert_eq!(encode_movement_to_dir(&chars("0000")), (4, chars("")));
    assert_eq!(encode_movement_to_dir(&chars("0001")), (3, chars("North")));
}

#[test]
fn centering_adds_after_then_before() {
    assert_eq!(center(&chars("Up"), 9), chars("   Up    "));
    assert_eq!(center(&chars("Northwest"), 9), chars("Northwest"));
    assert_eq!(center(&chars("JUMP"), 5), chars("JUMP "));
}

#[test]
fn padding_on_the_right() {
    assert_eq!(pad(&chars("01"), '0', 5), chars("01000"));
    assert_eq!(pad(&chars("0101010"), '0', 5), chars("0101010"));
}

#[test]
fn a_dance_move_line() {
    let line = format_move(&chars("Up"), &chars(""), true, true);
    assert_eq!(line, chars("|    Up     |           | JUMP  | SNEAK |"));
    assert_eq!(line.len(), 41);
}

#[test]
fn dance_table() {
    let table = translate_to_dance(&strings(&["00000", "00 011"]));
    assert_eq!(
        table,
        strings(&[
            "\x1b[4m| LOOK DIR  | MOVE DIR  |  ACT  |  ACT  |\x1b[0m",
            "|    Up     |           | JUMP  | SNEAK |"
        ])
    );
}

#[test]
fn dance_tail_is_danced_after_the_bits_used() {
    // Twelve bits: the first move uses ten; the last two start the next.
    let table = translate_to_dance(&strings(&["000000000011"]));
    assert_eq!(
        table,
        strings(&[
            "\x1b[4m| LOOK DIR  | MOVE DIR  |  ACT  |  ACT  |\x1b[0m",
            "|    Up     |           |       |       |",
            "| Southwest |           |       |       |"
        ])
    );
}

#[test]
fn twelve_digits_dance_in_two_moves() {
    let table = translate_to_dance(&strings(&["111111110000"]));
    assert_eq!(
        table,
        strings(&[
            "\x1b[4m| LOOK DIR  | MOVE DIR  |  ACT  |  ACT  |\x1b[0m",
            "| Southeast | Southeast | JUMP  | SNEAK |",
            "|    Up     |           |       |       |"
        ])
    );
}

#[test]
fn dance_lines_are_all_as_wide() {
    let table = translate_to_dance(&strings(&["1011011101010111001011000101"]));
    assert!(table.len() > 2);
    for line in &table[1..] {
        assert_eq!(line.chars().count(), 41);
    }
}

#[test]
fn arguments_after_their_options() {
    let args = strings(&["prog", "-i", "in.hexpattern", "-f", "octal"]);
    let opts = strings(&["-i", "-o", "-f", "-p"]);
    assert_eq!(
        get_arguments(&args, &opts),
        vec![Some("in.hexpattern".to_string()), None, Some("octal".to_string()), None]
    );
}

#[test]
fn option_last_has_no_value() {
    let args = strings(&["prog", "-o"]);
    let opts = strings(&["-o"]);
    assert_eq!(get_arguments(&args, &opts), vec![None]);
}

#[test]
fn help_and_option_as_value() {
    let opts = strings(&["-i", "-o"]);
    assert_eq!(
        try_get_arguments(&strings(&["prog", "-i", "x", "-h"]), &opts),
        Err(ArgumentError::HelpRequested)
    );
    assert_eq!(
        try_get_arguments(&strings(&["prog", "-i", "-o", "y"]), &opts),
        Err(ArgumentError::OptionAsValue)
    );
}

#[test]
fn output_formats_and_answers() {
    assert_eq!(parse_output_format(&"octal".to_string()), Some(OutputFormat::Octal));
    assert_eq!(parse_output_format(&"bin".to_string()), Some(OutputFormat::Bin));
    assert_eq!(parse_output_format(&"dance".to_string()), Some(OutputFormat::Dance));
    assert_eq!(parse_output_format(&"hex".to_string()), None);
    assert_eq!(parse_yes_no(&"Y".to_string()), Some(true));
    assert_eq!(parse_yes_no(&"n".to_string()), Some(false));
    assert_eq!(parse_yes_no(&"yes".to_string()), None);
}

#[test]
fn rendering() {
    assert_eq!(render_binary(&strings(&["01", "10", "11"])), "01\n10\n11");
    assert_eq!(render_binary(&vec![]), "");
    assert_eq!(render_octal(&vec![0u8, 7, 3]), "073");
    assert_eq!(render_octal(&vec![12u8, 0, 255]), "120255");
    assert_eq!(
        render_dance(&strings(&["a", "b"])),
        "a\n-----------------------------------------\nb\n-----------------------------------------\n"
    );
}

#[test]
fn octal_digits_write_back_to_the_program() {
    let program = strings(&["000101", "111", "010011100"]);
    let digits = translate_to_octal(&program);
    let back: String = digits.iter().map(|d| format!("{:03b}", d)).collect();
    assert_eq!(back, program.concat());
}

#[test]
fn jump_and_sneak_are_yes_only_for_a_one() {
    let table = translate_to_dance(&strings(&["0000000012"]));
    assert_eq!(table[1], "|    Up     |           | JUMP  |       |");
}

#[test]
fn moves_that_name_no_direction_cannot_be_danced() {
    assert_eq!(dance_lines(&strings(&["1x1"])), None);
    assert_eq!(dance_lines(&strings(&["00\u{e9}"])), None);
    assert_eq!(
        dance_lines(&strings(&["00000"])),
        Some(translate_to_dance(&strings(&["00000"])))
    );
}

#[test]
fn dance_depends_only_on_the_digits() {
    let lines = strings(&["10 1", "1 0111", "", "0001 1"]);
    let joined = strings(&[&lines.concat().replace(' ', "")]);
    assert_eq!(translate_to_dance(&lines), translate_to_dance(&joined));
}

#[test]
fn dance_decodes_to_the_program() {
    fn dir(d: &str) -> &'static str {
        match d {
            "North" => "000",
            "West" => "001",
            "South" => "010",
            "East" => "011",
            "Northwest" => "100",
            "Northeast" => "101",
            "Southwest" => "110",
            "Southeast" => "111",
            _ => "",
        }
    }
    let program = strings(&["0110 1011101", "1100101010011"]);
    let bits: String = program.concat().replace(' ', "");
    let table = translate_to_dance(&program);
    let mut decoded = String::new();
    for line in &table[1..] {
        let cells: Vec<&str> = line.split('|').map(|c| c.trim()).collect();
        decoded.push_str(match cells[1] {
            "Up" => "0000",
            "Down" => "0001",
            d => dir(d),
        });
        decoded.push_str(if cells[2].is_empty() { "0000" } else { dir(cells[2]) });
        decoded.push(if cells[3] == "JUMP" { '1' } else { '0' });
        decoded.push(if cells[4] == "SNEAK" { '1' } else { '0' });
    }
    assert!(decoded.starts_with(&bits));
    assert!(decoded[bits.len()..].chars().all(|c| c == '0'));
    assert!(decoded.len() - bits.len() < 10);
}
