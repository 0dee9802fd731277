//! Recognizing and rewriting structured-output prompts.
//!
//! Some clients wrap their question in a rigid template of field
//! declarations and `[[ ## field ## ]]` markers.  The server recognizes such
//! prompts, extracts the declared output fields and the bare question for
//! the model, and dresses the model's answer back up in the markers the
//! client expects.

use vstd::prelude::*;
use vstd::string::StringSliceAdditionalSpecFns;

use crate::bytes::{
    contains_seq, contains_sub, find_first, first_index, match_at, trim_bytes, trimmed,
};
use crate::demux::NL;

verus! {

/// The backtick byte that quotes a field name in a declaration line.
pub const BACKTICK: u8 = 96;

/// The carriage-return byte, stripped from line ends.
pub const CR: u8 = 13;

/// The template announces its input fields.
pub open spec fn has_field_declaration(s: Seq<u8>) -> bool {
    ||| contains_seq(s, "Your input fields are:".spec_bytes())
    ||| contains_seq(s, "Your output fields are:".spec_bytes())
}

/// The template uses `[[ ## … ## ]]` field markers.
pub open spec fn has_field_markers(s: Seq<u8>) -> bool {
    contains_seq(s, "[[ ## ".spec_bytes()) && contains_seq(s, " ## ]]".spec_bytes())
}

/// The template states that interactions are structured.
pub open spec fn has_structure_instruction(s: Seq<u8>) -> bool {
    contains_seq(s, "All interactions will be structured".spec_bytes())
}

/// The template mentions its completion marker.
pub open spec fn has_completion_marker(s: Seq<u8>) -> bool {
    ||| contains_seq(s, "[[ ## completed ## ]]".spec_bytes())
    ||| contains_seq(s, "ending with the marker for `completed`".spec_bytes())
}

pub open spec fn count_signal(b: bool) -> int {
    if b {
        1
    } else {
        0
    }
}

/// How many of the four template signals the prompt carries.
pub open spec fn dspy_signal_count(s: Seq<u8>) -> int {
    count_signal(has_field_declaration(s)) + count_signal(has_field_markers(s)) + count_signal(
        has_structure_instruction(s),
    ) + count_signal(has_completion_marker(s))
}

/// A prompt is taken for a structured-output template when at least three
/// of the four signals are present.
pub open spec fn is_dspy_prompt(s: Seq<u8>) -> bool {
    dspy_signal_count(s) >= 3
}

/// Decides whether a prompt is a structured-output template: at least three
/// of four signals — a field declaration, field markers, the structure
/// instruction, the completion marker — must be present.
pub fn is_dspy_request(prompt: &str) -> (r: bool)
    ensures
        r == is_dspy_prompt(prompt.spec_bytes()),
{
    let s = prompt.as_bytes();
    let d = contains_sub(s, "Your input fields are:".as_bytes()) || contains_sub(
        s,
        "Your output fields are:".as_bytes(),
    );
    let m = contains_sub(s, "[[ ## ".as_bytes()) && contains_sub(s, " ## ]]".as_bytes());
    let st = contains_sub(s, "All interactions will be structured".as_bytes());
    let c = contains_sub(s, "[[ ## completed ## ]]".as_bytes()) || contains_sub(
        s,
        "ending with the marker for `completed`".as_bytes(),
    );
    let mut n: u32 = 0;
    if d {
        n += 1;
    }
    if m {
        n += 1;
    }
    if st {
        n += 1;
    }
    if c {
        n += 1;
    }
    n >= 3
}

/// A raw line with one trailing carriage return stripped.
pub open spec fn line_content(l: Seq<u8>) -> Seq<u8> {
    if l.len() > 0 && l.last() == CR {
        l.drop_last()
    } else {
        l
    }
}

/// The text between the first pair of backticks of a declaration line, the
/// declared field name.
pub open spec fn backtick_field(line: Seq<u8>) -> Option<Seq<u8>> {
    let p = first_index(line, seq![BACKTICK]);
    if p < 0 {
        None
    } else {
        let rest = line.skip(p + 1);
        let q = first_index(rest, seq![BACKTICK]);
        if q < 0 {
            None
        } else {
            Some(rest.take(q))
        }
    }
}

/// The field names declared in a section, line by line, stopping at the
/// structure instruction (whose own line still counts).
pub open spec fn fields_of_section(s: Seq<u8>) -> Seq<Seq<u8>>
    decreases s.len(),
    via fields_of_section_dec
{
    if s.len() == 0 {
        Seq::empty()
    } else {
        let p = first_index(s, seq![NL]);
        let line = line_content(if p < 0 { s } else { s.take(p) });
        let here: Seq<Seq<u8>> = match backtick_field(line) {
            Some(f) => seq![f],
            None => Seq::empty(),
        };
        if contains_seq(line, "All interactions will be structured".spec_bytes()) || p < 0 {
            here
        } else {
            here + fields_of_section(s.skip(p + 1))
        }
    }
}

#[via_fn]
proof fn fields_of_section_dec(s: Seq<u8>) {
    if s.len() > 0 {
        crate::bytes::lemma_first_index_is_match(s, seq![NL], 0);
    }
}

/// The segment of `s` right after the first occurrence of `pat`, up to the
/// next occurrence of `pat` or the end.
pub open spec fn segment_after(s: Seq<u8>, pat: Seq<u8>) -> Option<Seq<u8>> {
    let p = first_index(s, pat);
    if p < 0 {
        None
    } else {
        let rest = s.skip(p + pat.len());
        let q = first_index(rest, pat);
        if q < 0 {
            Some(rest)
        } else {
            Some(rest.take(q))
        }
    }
}

/// The output field names a structured prompt declares.
pub open spec fn dspy_output_fields(s: Seq<u8>) -> Seq<Seq<u8>> {
    match segment_after(s, "Your output fields are:".spec_bytes()) {
        Some(section) => fields_of_section(section),
        None => Seq::empty(),
    }
}

/// Picks the segment of `s` right after the first occurrence of `pat`, up
/// to the next occurrence of `pat` or the end.
fn segment_after_exec(s: &[u8], pat: &[u8]) -> (r: Option<Vec<u8>>)
    ensures
        match r {
            Some(v) => segment_after(s@, pat@) == Some(v@),
            None => segment_after(s@, pat@) is None,
        },
{
    match find_first(s, pat) {
        None => None,
        Some(p) => {
            let n = s.len();
            proof {
                assert(match_at(s@, pat@, p as int));
            }
            let start = p + pat.len();
            let rest = &s[start..n];
            assert(rest@ =~= s@.skip(start as int));
            match find_first(rest, pat) {
                None => Some(vstd::slice::slice_to_vec(rest)),
                Some(q) => {
                    let seg = vstd::slice::slice_to_vec(&rest[0..q]);
                    proof {
                        assert(seg@ =~= s@.skip(start as int).take(q as int));
                    }
                    Some(seg)
                },
            }
        },
    }
}

/// Reads the field names out of one declaration section.
fn fields_of_section_exec(s: &[u8]) -> (r: Vec<Vec<u8>>)
    ensures
        r@.map_values(|f: Vec<u8>| f@) == fields_of_section(s@),
    decreases s@.len(),
{
    let mut out: Vec<Vec<u8>> = Vec::new();
    if s.len() == 0 {
        proof {
            assert(out@.map_values(|f: Vec<u8>| f@) =~= fields_of_section(s@));
        }
        return out;
    }
    let nlpat: [u8; 1] = [NL];
    assert(nlpat@ =~= seq![NL]);
    let p = find_first(s, nlpat.as_slice());
    let line_end = match p {
        Some(i) => i,
        None => s.len(),
    };
    let rawline = &s[0..line_end];
    proof {
        assert(rawline@ =~= (match p {
            Some(i) => s@.take(i as int),
            None => s@,
        }));
    }
    let line: &[u8] = if rawline.len() > 0 && rawline[rawline.len() - 1] == CR {
        let l = &rawline[0..rawline.len() - 1];
        proof {
            assert(l@ =~= rawline@.drop_last());
        }
        l
    } else {
        rawline
    };
    assert(line@ == line_content(rawline@));
    let bt: [u8; 1] = [BACKTICK];
    assert(bt@ =~= seq![BACKTICK]);
    match find_first(line, bt.as_slice()) {
        Some(bp) => {
            let ll = line.len();
            proof {
                assert(match_at(line@, bt@, bp as int));
            }
            let rest = &line[bp + 1..ll];
            assert(rest@ =~= line@.skip(bp + 1));
            match find_first(rest, bt.as_slice()) {
                Some(bq) => {
                    let field = vstd::slice::slice_to_vec(&rest[0..bq]);
                    proof {
                        assert(field@ =~= line@.skip(bp + 1).take(bq as int));
                    }
                    out.push(field);
                },
                None => {},
            }
        },
        None => {},
    }
    let stop = contains_sub(line, "All interactions will be structured".as_bytes());
    match p {
        Some(i) if !stop => {
            let tail_slice = &s[i + 1..s.len()];
            assert(tail_slice@ =~= s@.skip(i + 1));
            let mut tail = fields_of_section_exec(tail_slice);
            let ghost head = out@;
            let ghost tailv = tail@;
            out.append(&mut tail);
            proof {
                assert(out@.map_values(|f: Vec<u8>| f@) =~= head.map_values(|f: Vec<u8>| f@)
                    + tailv.map_values(|f: Vec<u8>| f@));
                assert(out@.map_values(|f: Vec<u8>| f@) =~= fields_of_section(s@));
            }
        },
        _ => {
            proof {
                assert(out@.map_values(|f: Vec<u8>| f@) =~= fields_of_section(s@));
            }
        },
    }
    out
}

/// Extracts the output field names declared by a structured prompt: within
/// the section after `Your output fields are:`, the first backtick-quoted
/// name of each line, stopping at the structure instruction.
pub fn extract_dspy_output_fields(prompt: &str) -> (r: Vec<Vec<u8>>)
    ensures
        r@.map_values(|f: Vec<u8>| f@) == dspy_output_fields(prompt.spec_bytes()),
{
    let s = prompt.as_bytes();
    match segment_after_exec(s, "Your output fields are:".as_bytes()) {
        Some(section) => fields_of_section_exec(section.as_slice()),
        None => {
            let out: Vec<Vec<u8>> = Vec::new();
            proof {
                assert(out@.map_values(|f: Vec<u8>| f@) =~= dspy_output_fields(prompt.spec_bytes()));
            }
            out
        },
    }
}

/// The bare question a structured prompt carries: the text after the
/// `## ]]` marker line of the user turn, trimmed.
pub open spec fn dspy_question(s: Seq<u8>) -> Option<Seq<u8>> {
    match segment_after(s, "user: [[ ## ".spec_bytes()) {
        None => None,
        Some(section) => {
            let pat = "## ]]\n".spec_bytes();
            let q = first_index(section, pat);
            if q < 0 {
                None
            } else {
                Some(trimmed(section.skip(q + pat.len())))
            }
        },
    }
}

/// Extracts the user's actual question from a structured prompt, dropping
/// the template around it.
pub fn extract_dspy_question(prompt: &str) -> (r: Option<Vec<u8>>)
    ensures
        match r {
            Some(v) => dspy_question(prompt.spec_bytes()) == Some(v@),
            None => dspy_question(prompt.spec_bytes()) is None,
        },
{
    let s = prompt.as_bytes();
    match segment_after_exec(s, "user: [[ ## ".as_bytes()) {
        None => None,
        Some(section) => {
            let pat = "## ]]\n".as_bytes();
            match find_first(section.as_slice(), pat) {
                None => None,
                Some(q) => {
                    let n = section.len();
                    proof {
                        assert(match_at(section@, pat@, q as int));
                    }
                    let tail = &section.as_slice()[q + pat.len()..n];
                    proof {
                        assert(tail@ =~= section@.skip(q + "## ]]\n".spec_bytes().len()));
                    }
                    Some(trim_bytes(tail))
                },
            }
        },
    }
}

/// A model answer dressed up for a structured-output client: the first
/// declared field's marker, the trimmed answer, a blank line, and the
/// completion marker.
pub open spec fn dspy_formatted(out: Seq<u8>, fields: Seq<Seq<u8>>) -> Seq<u8> {
    let completed = "[[ ## completed ## ]]\n".spec_bytes();
    if fields.len() > 0 {
        "[[ ## ".spec_bytes() + fields[0] + " ## ]]\n".spec_bytes() + trimmed(out) + seq![NL, NL]
            + completed
    } else {
        completed
    }
}

/// Formats a model answer with the field markers a structured-output client
/// expects: the whole answer goes into the first declared output field.
pub fn format_dspy_response(llm_output: &str, output_fields: &Vec<Vec<u8>>) -> (r: Vec<u8>)
    ensures
        r@ == dspy_formatted(
            llm_output.spec_bytes(),
            output_fields@.map_values(|f: Vec<u8>| f@),
        ),
{
    let mut out: Vec<u8> = Vec::new();
    if output_fields.len() > 0 {
        out.extend_from_slice("[[ ## ".as_bytes());
        out.extend_from_slice(output_fields[0].as_slice());
        out.extend_from_slice(" ## ]]\n".as_bytes());
        let cleaned = trim_bytes(llm_output.as_bytes());
        out.extend_from_slice(cleaned.as_slice());
        out.push(NL);
        out.push(NL);
    }
    out.extend_from_slice("[[ ## completed ## ]]\n".as_bytes());
    proof {
        assert(out@ =~= dspy_formatted(
            llm_output.spec_bytes(),
            output_fields@.map_values(|f: Vec<u8>| f@),
        ));
    }
    out
}

} // verus!
