use litert_lm::demux::Demultiplexer;

fn frag_bytes(f: &Option<Vec<u8>>) -> Vec<u8> {
    match f {
        Some(v) => v.clone(),
        None => Vec::new(),
    }
}

#[test]
fn split_marker_yields_single_fragment() {
    // The marker arrives split as "4\n>" then ">>": exactly one fragment
    // "4\n" and a clean completion, no marker byte leaked.
    let mut d = Demultiplexer::new();
    let s1 = d.push(b"4\n>");
    assert!(!s1.complete);
    assert_eq!(s1.fragment, Some(b"4\n".to_vec()));
    let s2 = d.push(b">>");
    assert!(s2.complete);
    assert_eq!(s2.fragment, None);
}

#[test]
fn fragments_concatenate_to_stripped_text() {
    let mut d = Demultiplexer::new();
    let mut all: Vec<u8> = Vec::new();
    let chunks: [&[u8]; 4] = [b"Hel", b"lo w", b"orld\n>", b">>"];
    let mut completed = false;
    for c in chunks.iter() {
        assert!(!completed);
        let step = d.push(c);
        all.extend_from_slice(&frag_bytes(&step.fragment));
        completed = step.complete;
    }
    assert!(completed);
    assert_eq!(all, b"Hello world\n".to_vec());
}

#[test]
fn newline_before_marker_is_kept() {
    let mut d = Demultiplexer::new();
    let s1 = d.push(b"4");
    assert_eq!(s1.fragment, Some(b"4".to_vec()));
    let s2 = d.push(b"\n>>>");
    assert!(s2.complete);
    assert_eq!(s2.fragment, Some(b"\n".to_vec()));
}

#[test]
fn newline_after_marker_is_stripped() {
    let mut d = Demultiplexer::new();
    let s1 = d.push(b"ok\n");
    assert_eq!(s1.fragment, Some(b"ok\n".to_vec()));
    let s2 = d.push(b">>>\n");
    assert!(s2.complete);
    assert_eq!(s2.fragment, None);
}

#[test]
fn no_marker_means_no_completion() {
    let mut d = Demultiplexer::new();
    assert!(!d.push(b"some ").complete);
    assert!(!d.push(b"text without").complete);
    assert!(!d.push(b" any end").complete);
}

#[test]
fn gt_run_inside_text_is_delivered() {
    // A ">" mid-text that is not the terminal marker is ordinary output.
    let mut d = Demultiplexer::new();
    let s1 = d.push(b"a > b");
    assert_eq!(s1.fragment, Some(b"a > b".to_vec()));
    assert!(!s1.complete);
    let s2 = d.push(b" c\n>>>");
    assert!(s2.complete);
    assert_eq!(s2.fragment, Some(b" c\n".to_vec()));
}

#[test]
fn partial_marker_is_held_back() {
    let mut d = Demultiplexer::new();
    let s1 = d.push(b"x>>");
    // The trailing ">>" may still become the marker, so only "x" appears.
    assert_eq!(s1.fragment, Some(b"x".to_vec()));
    let s2 = d.push(b"y");
    // It was not the marker after all: the held bytes are delivered.
    assert_eq!(s2.fragment, Some(b">>y".to_vec()));
    assert!(!s2.complete);
}

#[test]
fn split_two_byte_character_is_held_together() {
    // The two bytes of one character arrive in separate reads: the lead is
    // held back and the whole character comes out in one fragment.
    let mut d = Demultiplexer::new();
    let s1 = d.push(&[0xC3]);
    assert_eq!(s1.fragment, None);
    assert!(!s1.complete);
    let s2 = d.push(&[0xA9]);
    assert_eq!(s2.fragment, Some(vec![0xC3, 0xA9]));
    assert_eq!(String::from_utf8_lossy(&s2.fragment.unwrap()).to_string(), "é");
}

#[test]
fn split_four_byte_character_is_held_together() {
    let mut d = Demultiplexer::new();
    assert_eq!(d.push(&[0xF0]).fragment, None);
    assert_eq!(d.push(&[0x9F, 0x92]).fragment, None);
    let s = d.push(&[0x96, b'!']);
    assert_eq!(s.fragment, Some(vec![0xF0, 0x9F, 0x92, 0x96, b'!']));
}

#[test]
fn character_split_around_text_is_never_torn() {
    // Mixed ASCII and a split character: every fragment decodes cleanly and
    // the decoded fragments concatenate to the decoded whole.
    let mut d = Demultiplexer::new();
    let mut decoded = String::new();
    let mut raw: Vec<u8> = Vec::new();
    let chunks: [&[u8]; 3] = [b"caf", &[0xC3], &[0xA9, b'!']];
    for c in chunks.iter() {
        raw.extend_from_slice(c);
        if let Some(f) = d.push(c).fragment {
            decoded.push_str(&String::from_utf8_lossy(&f));
        }
    }
    assert_eq!(decoded, "café!");
    assert_eq!(decoded, String::from_utf8_lossy(&raw).to_string());
}

#[test]
fn bytes_that_can_never_complete_are_released() {
    // An orphan continuation byte cannot start a character; it is delivered
    // rather than held forever, as the whole-text decoding would also
    // replace it.
    let mut d = Demultiplexer::new();
    assert_eq!(d.push(b"a").fragment, Some(b"a".to_vec()));
    assert_eq!(d.push(&[0xA9]).fragment, Some(vec![0xA9]));
}

#[test]
fn incomplete_character_is_flushed_on_completion() {
    // A dangling lead byte is held while streaming but still delivered with
    // the final fragment when the command completes.
    let mut d = Demultiplexer::new();
    let s1 = d.push(&[b'a', 0xC3]);
    assert_eq!(s1.fragment, Some(b"a".to_vec()));
    let s2 = d.push(b"\n>>>");
    assert!(s2.complete);
    assert_eq!(s2.fragment, Some(vec![0xC3, b'\n']));
}
