use litert_lm::dspy::{
    extract_dspy_output_fields, extract_dspy_question, format_dspy_response, is_dspy_request,
};

fn template_prompt() -> String {
    let mut p = String::new();
    p.push_str("system: Your input fields are:\n1. `question` (String)\n");
    p.push_str("Your output fields are:\n1. `answer` (String)\n2. `reasoning` (String)\n");
    p.push_str("All interactions will be structured in the following way\n");
    p.push_str("[[ ## question ## ]]\n");
    p.push_str("ending with the marker for `completed`\n");
    p.push_str("user: [[ ## question ## ]]\nWhat is 2+2?\n");
    p
}

#[test]
fn template_prompt_is_recognized() {
    assert!(is_dspy_request(&template_prompt()));
}

#[test]
fn plain_prompt_is_not_recognized() {
    assert!(!is_dspy_request("What is 2+2?"));
    // Two signals are not enough: field markers plus structure instruction.
    let two = "[[ ## a ## ]] All interactions will be structured";
    assert!(!is_dspy_request(two));
}

#[test]
fn three_signals_suffice() {
    let three = "Your output fields are:\n[[ ## a ## ]]\nAll interactions will be structured";
    assert!(is_dspy_request(three));
}

#[test]
fn output_fields_come_from_declaration_lines() {
    let fields = extract_dspy_output_fields(&template_prompt());
    assert_eq!(fields, vec![b"answer".to_vec(), b"reasoning".to_vec()]);
}

#[test]
fn field_scan_stops_at_structure_instruction() {
    let p = "Your output fields are:\n1. `answer` (String)\n\
             All interactions will be structured\n1. `ignored` (String)\n";
    let fields = extract_dspy_output_fields(p);
    assert_eq!(fields, vec![b"answer".to_vec()]);
}

#[test]
fn question_is_extracted_and_trimmed() {
    let q = extract_dspy_question(&template_prompt());
    assert_eq!(q, Some(b"What is 2+2?".to_vec()));
    assert_eq!(extract_dspy_question("no template here"), None);
}

#[test]
fn response_is_dressed_with_markers() {
    let fields = vec![b"answer".to_vec()];
    let out = format_dspy_response("  4  \n", &fields);
    assert_eq!(out, b"[[ ## answer ## ]]\n4\n\n[[ ## completed ## ]]\n".to_vec());
}

#[test]
fn response_without_fields_gets_only_the_completion_marker() {
    let fields: Vec<Vec<u8>> = Vec::new();
    let out = format_dspy_response("4", &fields);
    assert_eq!(out, b"[[ ## completed ## ]]\n".to_vec());
}
