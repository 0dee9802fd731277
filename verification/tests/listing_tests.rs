use litert_lm::listing::{
    listing_contains_model, model_exists, models_list_response, parse_model_listing,
    parse_registry_listing, split_lines_exec,
};

const LISTING: &[u8] = b"Downloaded models:\n  gemma-3n-E4B   3.9GB\n\n  tiny-llm   0.5GB\nALIAS list\n";

#[test]
fn lines_are_split_on_line_feeds() {
    let lines = split_lines_exec(b"a\nb\r\nc");
    assert_eq!(lines, vec![b"a".to_vec(), b"b".to_vec(), b"c".to_vec()]);
    assert_eq!(split_lines_exec(b""), Vec::<Vec<u8>>::new());
}

#[test]
fn model_names_skip_headers_and_blank_lines() {
    let names = parse_model_listing(LISTING);
    assert_eq!(names, vec![b"gemma-3n-E4B".to_vec(), b"tiny-llm".to_vec()]);
}

#[test]
fn model_lookup_wants_the_whole_trimmed_line() {
    assert!(model_exists(b"Available models:\ngemma\n", b"gemma"));
    assert!(!model_exists(b"Available models:\ngemma extra\n", b"gemma"));
    assert!(!model_exists(b"Available gemma\n", b"gemma"));
}

#[test]
fn registry_lines_are_trimmed_whole() {
    let models = parse_registry_listing(b"Available models:\n gemma 3.9GB \n\n tiny \n");
    assert_eq!(models, vec![b"gemma 3.9GB".to_vec(), b"tiny".to_vec()]);
}

#[test]
fn downloaded_check_matches_any_line() {
    assert!(listing_contains_model(b"header\n  gemma  \n", b"gemma"));
    assert!(!listing_contains_model(b"header\n  gem  \n", b"gemma"));
}

#[test]
fn models_response_carries_every_name() {
    let names = vec![b"gemma".to_vec(), b"tiny".to_vec()];
    let resp = models_list_response(names);
    assert_eq!(resp.object, "list");
    assert_eq!(resp.data.len(), 2);
    assert_eq!(resp.data[0].id, b"gemma".to_vec());
    assert_eq!(resp.data[0].object, "model");
    assert_eq!(resp.data[0].created, 1700000000);
    assert_eq!(resp.data[0].owned_by, "litert-lm");
    assert_eq!(resp.data[1].id, b"tiny".to_vec());
}
