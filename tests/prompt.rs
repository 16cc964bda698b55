use eagle_plm::prompt::{text_entry_answer, yes_no_answer, Prompt};

#[test]
fn test_text_entry_with_whitespace() {
    let input = b"I love cookies!   \n";
    let mut output = Vec::new();

    let answer = {
        let mut prompt = Prompt {
            reader: &input[..],
            writer: &mut output,
        };

        prompt.ask_text_entry("Do you like cookies?")
    };

    let output = String::from_utf8(output).expect("Not UTF-8");

    assert_eq!("Do you like cookies?", output);
    assert_eq!("I love cookies!", answer);
}

#[test]
fn test_yes_no_expect_true() {
    let input = b"y\n";
    let mut output = Vec::new();

    let answer = {
        let mut prompt = Prompt {
            reader: &input[..],
            writer: &mut output,
        };

        prompt.ask_yes_no_question("Would you like to do things?")
    };

    let output = String::from_utf8(output).expect("Not UTF-8");

    assert_eq!("Would you like to do things? (y/n) ", output);
    assert_eq!(true, answer);
}

#[test]
fn test_yes_no_expect_false() {
    let input = b"\n";
    let mut output = Vec::new();

    let answer = {
        let mut prompt = Prompt {
            reader: &input[..],
            writer: &mut output,
        };

        prompt.ask_yes_no_question("Would you like to do things?")
    };

    let output = String::from_utf8(output).expect("Not UTF-8");

    assert_eq!("Would you like to do things? (y/n) ", output);
    assert_eq!(false, answer);
}

#[test]
fn text_answer_drops_line_break_and_trims() {
    assert_eq!(text_entry_answer("  42 \n"), "42");
    assert_eq!(text_entry_answer(""), "");
    assert_eq!(text_entry_answer("\n"), "");
    assert_eq!(text_entry_answer("\u{3000}x y\t\n"), "x y");
}

#[test]
fn yes_no_answer_reads_first_character() {
    assert!(yes_no_answer("yes\n"));
    assert!(!yes_no_answer("n\n"));
    assert!(!yes_no_answer(""));
    assert!(!yes_no_answer("Y\n"));
}

#[test]
fn text_entry_at_end_of_input_is_empty() {
    let input = b"";
    let mut output = Vec::new();
    let answer = {
        let mut prompt = Prompt {
            reader: &input[..],
            writer: &mut output,
        };
        prompt.ask_text_entry("Part Number: ")
    };
    assert_eq!(answer, "");
    assert_eq!(String::from_utf8(output).unwrap(), "Part Number: ");
}
