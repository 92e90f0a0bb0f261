use rcsfs::descriptor::{CSFDescriptorGenerator, CsfLine, ParseError};

#[test]
fn test_descriptor_generator_creation() {
    let subshells = vec!["5s".to_string(), "4d-".to_string(), "4d".to_string()];
    let generator = CSFDescriptorGenerator::new(subshells.clone());

    assert_eq!(generator.orbital_count(), 3);
    assert_eq!(generator.peel_subshells(), &subshells);
}

#[test]
fn test_descriptor_generator_parse_csf_basic() {
    let subshells = vec![
        "5s".to_string(),
        "4d-".to_string(),
        "4d".to_string(),
        "5p-".to_string(),
        "5p".to_string(),
        "6s".to_string(),
    ];
    let generator = CSFDescriptorGenerator::new(subshells);

    let line1 = "  5s ( 2)  4d-( 4)  4d ( 6)  5p-( 2)  5p ( 4)  6s ( 2)";
    let line2 = "                   3/2               2        ";
    let line3 = "                                           4-  ";

    let result = generator.parse_csf(line1, line2, line3);

    assert!(result.is_ok());
    let descriptor = result.unwrap();

    assert_eq!(descriptor.len(), 18);

    assert_eq!(descriptor[0], 2);
    assert_eq!(descriptor[1], 0);
    assert_eq!(descriptor[2], 0);

    assert_eq!(descriptor[3], 4);
    assert_eq!(descriptor[4], 0);
    assert_eq!(descriptor[5], 0);

    assert_eq!(descriptor[6], 6);
    assert_eq!(descriptor[7], 3);
    assert_eq!(descriptor[8], 2);

    assert_eq!(descriptor[15], 2);
    assert_eq!(descriptor[16], 0);
    assert_eq!(descriptor[17], 8);
}

#[test]
fn test_descriptor_generator_parse_csf_empty_orbital() {
    let subshells = vec!["5s".to_string(), "4d-".to_string(), "4d".to_string()];
    let generator = CSFDescriptorGenerator::new(subshells);

    let line1 = "  5s ( 0)  4d-( 4)  4d ( 6)";
    let line2 = "                   3/2      ";
    let line3 = "                        4-  ";

    let result = generator.parse_csf(line1, line2, line3);

    assert!(result.is_ok());
    let descriptor = result.unwrap();

    assert_eq!(descriptor[0], 0);
    assert_eq!(descriptor[1], 0);
    assert_eq!(descriptor[2], 0);
}

#[test]
fn test_descriptor_generator_parse_csf_fractional_j() {
    let subshells = vec!["5s".to_string(), "4d-".to_string(), "4d".to_string()];
    let generator = CSFDescriptorGenerator::new(subshells);

    let line1 = "  5s ( 2)  4d-( 4)  4d ( 6)";
    let line2 = "                   5/2      ";
    let line3 = "                        4-  ";

    let result = generator.parse_csf(line1, line2, line3);

    assert!(result.is_ok());
    let descriptor = result.unwrap();

    assert_eq!(descriptor[6], 6);
    assert_eq!(descriptor[7], 5);
    assert_eq!(descriptor[8], 8);
}

#[test]
fn test_descriptor_generator_orbital_count() {
    let subshells1 = vec!["5s".to_string()];
    let gen1 = CSFDescriptorGenerator::new(subshells1);
    assert_eq!(gen1.orbital_count(), 1);

    let subshells2 = vec!["5s".to_string(), "4d-".to_string(), "4d".to_string()];
    let gen2 = CSFDescriptorGenerator::new(subshells2);
    assert_eq!(gen2.orbital_count(), 3);

    let subshells3 = vec![
        "5s".to_string(),
        "4d-".to_string(),
        "4d".to_string(),
        "5p-".to_string(),
        "5p".to_string(),
        "6s".to_string(),
    ];
    let gen3 = CSFDescriptorGenerator::new(subshells3);
    assert_eq!(gen3.orbital_count(), 6);
}

#[test]
fn test_descriptor_generator_get_config() {
    let subshells = vec!["5s".to_string(), "4d-".to_string(), "4d".to_string()];
    let generator = CSFDescriptorGenerator::new(subshells.clone());

    let config = generator.get_config();
    assert_eq!(config.orbital_count, 3);
    assert_eq!(config.peel_subshells, subshells);
}

#[test]
fn test_descriptor_generator_descriptor_size() {
    let subshells = vec!["5s".to_string(), "4d-".to_string(), "4d".to_string()];
    let generator = CSFDescriptorGenerator::new(subshells);

    let line1 = "  5s ( 2)  4d-( 4)  4d ( 6)";
    let line2 = "                   3/2      ";
    let line3 = "                        4-  ";

    let result = generator.parse_csf(line1, line2, line3);

    assert!(result.is_ok());
    let descriptor = result.unwrap();

    assert_eq!(descriptor.len(), 3 * generator.orbital_count());
}

fn three_subshells() -> CSFDescriptorGenerator {
    CSFDescriptorGenerator::new(vec!["5s".to_string(), "4d-".to_string(), "4d".to_string()])
}

#[test]
fn parse_single_group_takes_coupling_from_final_line() {
    let generator = three_subshells();
    let descriptor = generator
        .parse_csf(
            "  5s ( 2)  4d-( 4)  4d ( 6)",
            "                   3/2      ",
            "                        4-  ",
        )
        .unwrap();
    assert_eq!(descriptor, vec![2, 0, 0, 4, 0, 0, 6, 3, 8]);
}

#[test]
fn parse_second_token_closes_open_group() {
    let generator = CSFDescriptorGenerator::new(vec![
        "5s".to_string(),
        "4d-".to_string(),
        "4d".to_string(),
        "5p-".to_string(),
        "5p".to_string(),
        "6s".to_string(),
    ]);
    let descriptor = generator
        .parse_csf(
            "  5s ( 2)  4d-( 4)  4d ( 6)  5p-( 2)  5p ( 4)  6s ( 2)",
            "                   3/2               2        ",
            "                                           4-  ",
        )
        .unwrap();
    assert_eq!(descriptor, vec![2, 0, 0, 4, 0, 0, 6, 3, 2, 2, 0, 0, 4, 0, 0, 2, 0, 8]);
}

#[test]
fn parse_final_token_ignored_when_last_subshell_is_coupled() {
    let generator = CSFDescriptorGenerator::new(vec!["5s".to_string(), "4d".to_string()]);
    // the second token closes the group of 5s, the third closes the one of 4d
    let descriptor = generator
        .parse_csf("  5s ( 1)  4d ( 5)", " 1/2     5/2  3   ", "  oops  ")
        .unwrap();
    assert_eq!(descriptor, vec![1, 1, 5, 5, 0, 3]);
}

#[test]
fn parse_two_digit_occupation_and_blank_final_line() {
    let generator = CSFDescriptorGenerator::new(vec!["4f".to_string()]);
    let descriptor = generator.parse_csf("  4f (10)", "         ", "         ").unwrap();
    assert_eq!(descriptor, vec![10, 0, 0]);
}

#[test]
fn parse_final_integer_without_marker_is_doubled() {
    let generator = three_subshells();
    let descriptor = generator
        .parse_csf(
            "  5s ( 2)  4d-( 4)  4d ( 6)",
            "                   3/2      ",
            "                        3   ",
        )
        .unwrap();
    assert_eq!(descriptor[8], 6);
}

#[test]
fn parse_rejects_wrong_occupation_length() {
    let generator = three_subshells();
    let result = generator.parse_csf("  5s ( 2)  4d-( 4)", "", "");
    assert_eq!(
        result,
        Err(ParseError::LengthMismatch { orbital_count: 3, line_len: 18 })
    );
}

#[test]
fn parse_rejects_unreadable_occupation() {
    let generator = three_subshells();
    let result = generator.parse_csf("  5s ( 2)  4d-(x4)  4d ( 6)", "", "");
    assert_eq!(
        result,
        Err(ParseError::BadToken { line: CsfLine::Occupation, offset: 9 })
    );
}

#[test]
fn parse_rejects_bad_intermediate_token() {
    let generator = three_subshells();
    let result = generator.parse_csf(
        "  5s ( 2)  4d-( 4)  4d ( 6)",
        "                   3/4      ",
        "                        4-  ",
    );
    assert_eq!(
        result,
        Err(ParseError::BadToken { line: CsfLine::Intermediate, offset: 19 })
    );
}

#[test]
fn parse_rejects_bad_final_token() {
    let generator = three_subshells();
    let result = generator.parse_csf(
        "  5s ( 2)  4d-( 4)  4d ( 6)",
        "                   3/2      ",
        "                        x-  ",
    );
    assert_eq!(result, Err(ParseError::BadToken { line: CsfLine::Final, offset: 24 }));
}

#[test]
fn parse_rejects_token_right_of_last_column() {
    let generator = three_subshells();
    let result = generator.parse_csf(
        "  5s ( 2)  4d-( 4)  4d ( 6)",
        "                   3/2         2",
        "                        4-  ",
    );
    assert_eq!(result, Err(ParseError::UnknownColumn { offset: 31 }));
}
