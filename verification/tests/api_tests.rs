use litert_lm::api::{
    build_completion_response, build_prompt, completion_id, ChunkBuilder, ContentPart, Message,
    MessageContent, StreamFormatter,
};
use litert_lm::binary::{
    get_binary_filename, interactive_args, list_args, pull_args, remove_args, BinaryManager,
};
use litert_lm::default_max_tokens;
use litert_lm::registry::{parse_download_uri, DownloadStatus, ProgressTable};

#[test]
fn prompt_lists_messages_role_by_role() {
    let messages = vec![
        Message {
            role: "system".to_string(),
            content: MessageContent::Plain("Be brief.".to_string()),
        },
        Message {
            role: "user".to_string(),
            content: MessageContent::Parts(vec![
                ContentPart::Text { text: "What is".to_string() },
                ContentPart::ImageUrl,
                ContentPart::Text { text: "2+2?".to_string() },
            ]),
        },
    ];
    assert_eq!(build_prompt(&messages), "system: Be brief.\nuser: What is\n2+2?");
}

#[test]
fn content_of_parts_joins_text_only() {
    let m = Message {
        role: "user".to_string(),
        content: MessageContent::Parts(vec![ContentPart::ImageUrl]),
    };
    assert_eq!(m.content_as_string(), "");
}

#[test]
fn completion_response_has_one_stop_choice() {
    let r = build_completion_response(
        "chatcmpl-1".to_string(),
        1234,
        "gemma".to_string(),
        "4".to_string(),
    );
    assert_eq!(r.object, "chat.completion");
    assert_eq!(r.created, 1234);
    assert_eq!(r.choices.len(), 1);
    assert_eq!(r.choices[0].message.role, "assistant");
    assert_eq!(r.choices[0].finish_reason, "stop");
    assert_eq!(r.usage.total_tokens, 0);
}

#[test]
fn completion_identifiers_are_fresh_and_shaped() {
    let a = completion_id();
    let b = completion_id();
    assert_eq!(a.len(), 45);
    assert!(a.starts_with("chatcmpl-"));
    assert_ne!(a, b);
}

#[test]
fn stream_formatter_dresses_first_token_and_end() {
    let mut f = StreamFormatter::new(true, Some(b"answer".to_vec()));
    let first = f.on_token(b"4".to_vec());
    assert_eq!(first, b"[[ ## answer ## ]]\n4".to_vec());
    let second = f.on_token(b" more".to_vec());
    assert_eq!(second, b" more".to_vec());
    let end = f.on_end();
    assert_eq!(end, Some(b"\n\n[[ ## completed ## ]]\n".to_vec()));
    assert_eq!(f.on_end(), None);
}

#[test]
fn plain_stream_is_untouched() {
    let mut f = StreamFormatter::new(false, None);
    assert_eq!(f.on_token(b"4".to_vec()), b"4".to_vec());
    assert_eq!(f.on_end(), None);
}

#[test]
fn first_chunk_names_the_role_and_completion_stops() {
    let id = "chatcmpl-x".to_string();
    let model = "gemma".to_string();
    let mut b = ChunkBuilder::new();
    let c1 = b.next_chunk(&id, 7, &model, b"4".to_vec());
    assert_eq!(c1.object, "chat.completion.chunk");
    assert_eq!(c1.choices[0].delta.role.as_deref(), Some("assistant"));
    assert_eq!(c1.choices[0].delta.content, Some(b"4".to_vec()));
    assert_eq!(c1.choices[0].finish_reason, None);
    let c2 = b.next_chunk(&id, 7, &model, b"\n\n[[ ## completed ## ]]\n".to_vec());
    assert_eq!(c2.choices[0].delta.role, None);
    assert_eq!(c2.choices[0].finish_reason.as_deref(), Some("stop"));
    let c3 = b.next_chunk(&id, 7, &model, b"[[ ## completed ## ]]".to_vec());
    assert_eq!(c3.choices[0].finish_reason, None);
}

#[test]
fn default_token_budget() {
    assert_eq!(default_max_tokens(), 2048);
}

#[test]
fn platform_assets_are_named_exactly() {
    assert_eq!(get_binary_filename("linux", "x86_64"), Some("lit.linux_x86_64"));
    assert_eq!(get_binary_filename("linux", "aarch64"), Some("lit.linux_arm64"));
    assert_eq!(get_binary_filename("macos", "aarch64"), Some("lit.macos_arm64"));
    assert_eq!(get_binary_filename("windows", "x86_64"), Some("lit.windows_x86_64.exe"));
    assert_eq!(get_binary_filename("freebsd", "x86_64"), None);
}

#[test]
fn binary_path_and_url_are_joined() {
    let m = BinaryManager::new("/home/u/.cache/litert-lm".to_string(), "lit.linux_x86_64".to_string());
    assert_eq!(m.get_binary_path(), "/home/u/.cache/litert-lm/lit.linux_x86_64");
    assert_eq!(
        m.download_url(),
        "https://github.com/google-ai-edge/LiteRT-LM/releases/download/v0.7.0/lit.linux_x86_64",
    );
}

#[test]
fn auxiliary_command_lines_are_exact() {
    let l: Vec<String> = list_args(true).into_iter().collect();
    assert_eq!(l, vec!["list".to_string(), "--show_all".to_string()]);
    assert_eq!(list_args(false).len(), 1);
    let r: Vec<String> = remove_args("m").into_iter().collect();
    assert_eq!(r, vec!["rm".to_string(), "m".to_string()]);
    let i: Vec<String> = interactive_args("m").into_iter().collect();
    assert_eq!(i, vec!["run".to_string(), "m".to_string()]);
    let p: Vec<String> = pull_args("m", Some("a"), Some("SECRET-REDACTED")).into_iter().collect();
    assert_eq!(
        p,
        vec![
            "pull".to_string(),
            "m".to_string(),
            "--alias".to_string(),
            "a".to_string(),
            "--hf_token".to_string(),
            "SECRET-REDACTED".to_string(),
        ],
    );
    let p2 = pull_args("m", None, None);
    assert_eq!(p2.len(), 2);
}

#[test]
fn progress_table_keeps_one_record_per_model() {
    let mut t = ProgressTable::new();
    t.update_progress(b"gemma".to_vec(), 0, DownloadStatus::Pending);
    t.update_progress(b"tiny".to_vec(), 50, DownloadStatus::Downloading);
    t.update_progress(b"gemma".to_vec(), 100, DownloadStatus::Complete);
    assert_eq!(t.entries.len(), 2);
    let p = t.query_download_progress(b"gemma").expect("gemma is recorded");
    assert_eq!(p.progress, 100);
    assert!(matches!(p.status, DownloadStatus::Complete));
    assert!(t.query_download_progress(b"missing").is_none());
}

#[test]
fn download_uris_carry_the_model_name() {
    assert_eq!(parse_download_uri(b"litert://downloads/gemma"), Some(b"gemma".to_vec()));
    assert_eq!(parse_download_uri(b"litert://models/gemma"), None);
}
