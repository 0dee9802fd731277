//! Parsing the child's `list` output: the model names shown to API
//! clients, and membership tests used when a model is looked up.

use vstd::prelude::*;
use vstd::string::StringSliceAdditionalSpecFns;

use crate::bytes::{
    find_first, first_index, is_ascii_ws, is_ascii_ws_byte, lemma_first_index_is_match, match_at,
    starts_with_seq, starts_with_sub, trim_bytes, trimmed, ws_prefix_len,
};
use crate::demux::NL;
use crate::dspy::line_content;

verus! {

/// The lines of a byte text, split on line feeds, each with one trailing
/// carriage return stripped.
pub open spec fn split_lines(s: Seq<u8>) -> Seq<Seq<u8>>
    decreases s.len(),
    via split_lines_dec
{
    if s.len() == 0 {
        Seq::empty()
    } else {
        let p = first_index(s, seq![NL]);
        if p < 0 {
            seq![line_content(s)]
        } else {
            seq![line_content(s.take(p))] + split_lines(s.skip(p + 1))
        }
    }
}

#[via_fn]
proof fn split_lines_dec(s: Seq<u8>) {
    if s.len() > 0 {
        lemma_first_index_is_match(s, seq![NL], 0);
    }
}

/// Splits a byte text into its lines.
pub fn split_lines_exec(s: &[u8]) -> (r: Vec<Vec<u8>>)
    ensures
        r@.map_values(|l: Vec<u8>| l@) == split_lines(s@),
    decreases s@.len(),
{
    let mut out: Vec<Vec<u8>> = Vec::new();
    if s.len() == 0 {
        proof {
            assert(out@.map_values(|l: Vec<u8>| l@) =~= split_lines(s@));
        }
        return out;
    }
    let nlpat: [u8; 1] = [NL];
    assert(nlpat@ =~= seq![NL]);
    let sl = s.len();
    match find_first(s, nlpat.as_slice()) {
        None => {
            let line = line_slice(s);
            out.push(vstd::slice::slice_to_vec(line));
            proof {
                assert(out@.map_values(|l: Vec<u8>| l@) =~= split_lines(s@));
            }
            out
        },
        Some(p) => {
            let raw = &s[0..p];
            proof {
                assert(raw@ =~= s@.take(p as int));
            }
            let line = line_slice(raw);
            out.push(vstd::slice::slice_to_vec(line));
            let rest = &s[p + 1..sl];
            proof {
                assert(rest@ =~= s@.skip(p + 1));
            }
            let mut tail = split_lines_exec(rest);
            let ghost head = out@;
            let ghost tailv = tail@;
            out.append(&mut tail);
            proof {
                assert(out@.map_values(|l: Vec<u8>| l@) =~= head.map_values(|l: Vec<u8>| l@)
                    + tailv.map_values(|l: Vec<u8>| l@));
                assert(out@.map_values(|l: Vec<u8>| l@) =~= split_lines(s@));
            }
            out
        },
    }
}

/// Strips one trailing carriage return from a raw line.
fn line_slice(raw: &[u8]) -> (r: &[u8])
    ensures
        r@ == line_content(raw@),
{
    if raw.len() > 0 && raw[raw.len() - 1] == crate::dspy::CR {
        let l = &raw[0..raw.len() - 1];
        proof {
            assert(l@ =~= raw@.drop_last());
        }
        l
    } else {
        raw
    }
}

/// A listing line that names a model: its trimmed text is non-empty and is
/// not one of the headers.
pub open spec fn keep_line(l: Seq<u8>) -> bool {
    let t = trimmed(l);
    &&& t.len() > 0
    &&& !starts_with_seq(t, "Available".spec_bytes())
    &&& !starts_with_seq(t, "Downloaded".spec_bytes())
    &&& !starts_with_seq(t, "ALIAS".spec_bytes())
}

/// Length of the leading run of `s` without ASCII whitespace.
pub open spec fn non_ws_prefix_len(s: Seq<u8>) -> int
    decreases s.len(),
{
    if s.len() == 0 || is_ascii_ws(s[0]) {
        0
    } else {
        1 + non_ws_prefix_len(s.drop_first())
    }
}

proof fn lemma_non_ws_prefix_len_bounds(s: Seq<u8>)
    ensures
        0 <= non_ws_prefix_len(s) <= s.len(),
    decreases s.len(),
{
    if s.len() > 0 && !is_ascii_ws(s[0]) {
        lemma_non_ws_prefix_len_bounds(s.drop_first());
    }
}

/// The first whitespace-separated token of a line, if any.
pub open spec fn first_token(l: Seq<u8>) -> Option<Seq<u8>> {
    let t = l.skip(ws_prefix_len(l));
    if t.len() == 0 {
        None
    } else {
        Some(t.take(non_ws_prefix_len(t)))
    }
}

/// Picks the first whitespace-separated token of a line.
pub fn first_token_exec(l: &[u8]) -> (r: Option<Vec<u8>>)
    ensures
        match r {
            Some(t) => first_token(l@) == Some(t@),
            None => first_token(l@) is None,
        },
{
    let n = l.len();
    let mut start: usize = 0;
    proof {
        assert(l@.skip(0) =~= l@);
        crate::bytes::lemma_ws_prefix_len_bounds(l@);
    }
    while start < n && is_ascii_ws_byte(l[start])
        invariant
            n == l@.len(),
            start <= n,
            ws_prefix_len(l@) == start + ws_prefix_len(l@.skip(start as int)),
        decreases n - start,
    {
        proof {
            assert(l@.skip(start as int)[0] == l@[start as int]);
            assert(l@.skip(start as int).drop_first() =~= l@.skip(start + 1));
            crate::bytes::lemma_ws_prefix_len_bounds(l@.skip(start + 1));
        }
        start += 1;
    }
    proof {
        if start < n {
            assert(l@.skip(start as int)[0] == l@[start as int]);
        } else {
            assert(l@.skip(start as int) =~= Seq::<u8>::empty());
        }
        assert(ws_prefix_len(l@.skip(start as int)) == 0);
        assert(start as int == ws_prefix_len(l@));
    }
    if start == n {
        return None;
    }
    let ghost t = l@.skip(start as int);
    let mut end = start;
    proof {
        assert(t.skip(0) =~= t);
        lemma_non_ws_prefix_len_bounds(t);
    }
    while end < n && !is_ascii_ws_byte(l[end])
        invariant
            n == l@.len(),
            start <= end <= n,
            t == l@.skip(start as int),
            non_ws_prefix_len(t) == (end - start) + non_ws_prefix_len(t.skip(end - start)),
        decreases n - end,
    {
        proof {
            assert(t.skip(end - start)[0] == l@[end as int]);
            assert(t.skip(end - start).drop_first() =~= t.skip(end - start + 1));
            lemma_non_ws_prefix_len_bounds(t.skip(end - start + 1));
        }
        end += 1;
    }
    proof {
        if end < n {
            assert(t.skip(end - start)[0] == l@[end as int]);
        } else {
            assert(t.skip(end - start) =~= Seq::<u8>::empty());
        }
        assert(non_ws_prefix_len(t.skip(end - start)) == 0);
        assert(end - start == non_ws_prefix_len(t));
    }
    let tok = vstd::slice::slice_to_vec(&l[start..end]);
    proof {
        assert(tok@ =~= t.take(non_ws_prefix_len(t)));
    }
    Some(tok)
}

/// The model names a listing shows: the first token of every line that is
/// not empty and not a header.
pub open spec fn model_names_of(lines: Seq<Seq<u8>>) -> Seq<Seq<u8>>
    decreases lines.len(),
{
    if lines.len() == 0 {
        Seq::empty()
    } else {
        let rest = model_names_of(lines.drop_last());
        if keep_line(lines.last()) {
            match first_token(lines.last()) {
                Some(t) => rest.push(t),
                None => rest,
            }
        } else {
            rest
        }
    }
}

/// Decides whether a trimmed line is kept as a model line.
fn keep_line_exec(l: &[u8]) -> (r: bool)
    ensures
        r == keep_line(l@),
{
    let t = trim_bytes(l);
    t.len() > 0 && !starts_with_sub(t.as_slice(), "Available".as_bytes()) && !starts_with_sub(
        t.as_slice(),
        "Downloaded".as_bytes(),
    ) && !starts_with_sub(t.as_slice(), "ALIAS".as_bytes())
}

/// Parses the model names out of the child's `list` output: one per line,
/// skipping headers and blank lines, taking the first token of each line.
pub fn parse_model_listing(output: &[u8]) -> (r: Vec<Vec<u8>>)
    ensures
        r@.map_values(|t: Vec<u8>| t@) == model_names_of(split_lines(output@)),
{
    let lines = split_lines_exec(output);
    let ghost lm = lines@.map_values(|l: Vec<u8>| l@);
    let mut out: Vec<Vec<u8>> = Vec::new();
    let n = lines.len();
    let mut i: usize = 0;
    proof {
        assert(lm.take(0) =~= Seq::<Seq<u8>>::empty());
        assert(out@.map_values(|t: Vec<u8>| t@) =~= model_names_of(lm.take(0)));
    }
    while i < n
        invariant
            n == lines@.len(),
            lm == lines@.map_values(|l: Vec<u8>| l@),
            i <= n,
            out@.map_values(|t: Vec<u8>| t@) == model_names_of(lm.take(i as int)),
        decreases n - i,
    {
        proof {
            assert(lm.take(i + 1).drop_last() =~= lm.take(i as int));
            assert(lm.take(i + 1).last() == lm[i as int]);
        }
        let ghost before = out@;
        if keep_line_exec(lines[i].as_slice()) {
            match first_token_exec(lines[i].as_slice()) {
                Some(tok) => {
                    let ghost tokv = tok@;
                    out.push(tok);
                    proof {
                        assert(out@.map_values(|t: Vec<u8>| t@) =~= before.map_values(
                            |t: Vec<u8>| t@,
                        ).push(tokv));
                    }
                },
                None => {},
            }
        }
        proof {
            assert(out@.map_values(|t: Vec<u8>| t@) =~= model_names_of(lm.take(i + 1)));
        }
        i += 1;
    }
    proof {
        assert(lm.take(n as int) =~= lm);
    }
    out
}

/// Some kept line of the listing, trimmed, is exactly `model`.
pub open spec fn listing_has_model(out: Seq<u8>, model: Seq<u8>) -> bool {
    exists|i: int|
        0 <= i < split_lines(out).len() && keep_line(#[trigger] split_lines(out)[i]) && trimmed(
            split_lines(out)[i],
        ) == model
}

/// Decides whether the listing shows `model`: some non-header line's
/// trimmed text equals the requested name exactly.
pub fn model_exists(output: &[u8], model: &[u8]) -> (r: bool)
    ensures
        r == listing_has_model(output@, model@),
{
    let lines = split_lines_exec(output);
    let ghost lm = lines@.map_values(|l: Vec<u8>| l@);
    let n = lines.len();
    let mut i: usize = 0;
    while i < n
        invariant
            n == lines@.len(),
            lm == lines@.map_values(|l: Vec<u8>| l@),
            lm == split_lines(output@),
            i <= n,
            forall|k: int|
                0 <= k < i ==> !(keep_line(#[trigger] split_lines(output@)[k]) && trimmed(
                    split_lines(output@)[k],
                ) == model@),
        decreases n - i,
    {
        if keep_line_exec(lines[i].as_slice()) {
            let t = trim_bytes(lines[i].as_slice());
            if t.len() == model.len() && crate::bytes::match_at_exec(t.as_slice(), model, 0) {
                proof {
                    assert(trimmed(split_lines(output@)[i as int]) =~= model@);
                }
                return true;
            }
            proof {
                if trimmed(split_lines(output@)[i as int]) == model@ {
                    assert(match_at(t@, model@, 0));
                }
            }
        }
        i += 1;
    }
    false
}

/// Every line of a registry listing whose trimmed text is non-empty and not
/// a header, trimmed: the models the registry offers.
pub open spec fn registry_models_of(lines: Seq<Seq<u8>>) -> Seq<Seq<u8>>
    decreases lines.len(),
{
    if lines.len() == 0 {
        Seq::empty()
    } else {
        let rest = registry_models_of(lines.drop_last());
        let t = trimmed(lines.last());
        if t.len() > 0 && !starts_with_seq(t, "Available".spec_bytes()) && !starts_with_seq(
            t,
            "Downloaded".spec_bytes(),
        ) {
            rest.push(t)
        } else {
            rest
        }
    }
}

/// Parses the registry listing: the trimmed text of every line that is not
/// empty and not a header.
pub fn parse_registry_listing(output: &[u8]) -> (r: Vec<Vec<u8>>)
    ensures
        r@.map_values(|t: Vec<u8>| t@) == registry_models_of(split_lines(output@)),
{
    let lines = split_lines_exec(output);
    let ghost lm = lines@.map_values(|l: Vec<u8>| l@);
    let mut out: Vec<Vec<u8>> = Vec::new();
    let n = lines.len();
    let mut i: usize = 0;
    proof {
        assert(lm.take(0) =~= Seq::<Seq<u8>>::empty());
        assert(out@.map_values(|t: Vec<u8>| t@) =~= registry_models_of(lm.take(0)));
    }
    while i < n
        invariant
            n == lines@.len(),
            lm == lines@.map_values(|l: Vec<u8>| l@),
            i <= n,
            out@.map_values(|t: Vec<u8>| t@) == registry_models_of(lm.take(i as int)),
        decreases n - i,
    {
        proof {
            assert(lm.take(i + 1).drop_last() =~= lm.take(i as int));
            assert(lm.take(i + 1).last() == lm[i as int]);
        }
        let ghost before = out@;
        let t = trim_bytes(lines[i].as_slice());
        if t.len() > 0 && !starts_with_sub(t.as_slice(), "Available".as_bytes())
            && !starts_with_sub(t.as_slice(), "Downloaded".as_bytes()) {
            let ghost tv = t@;
            out.push(t);
            proof {
                assert(out@.map_values(|x: Vec<u8>| x@) =~= before.map_values(
                    |x: Vec<u8>| x@,
                ).push(tv));
            }
        }
        proof {
            assert(out@.map_values(|x: Vec<u8>| x@) =~= registry_models_of(lm.take(i + 1)));
        }
        i += 1;
    }
    proof {
        assert(lm.take(n as int) =~= lm);
    }
    out
}

/// Some line of the listing, trimmed, is exactly `model` — header lines
/// included, as the download check reads it.
pub open spec fn any_line_is(out: Seq<u8>, model: Seq<u8>) -> bool {
    exists|i: int|
        0 <= i < split_lines(out).len() && trimmed(#[trigger] split_lines(out)[i]) == model
}

/// Decides whether any line of the listing, trimmed, equals `model`: how a
/// downloaded model is recognized.
pub fn listing_contains_model(output: &[u8], model: &[u8]) -> (r: bool)
    ensures
        r == any_line_is(output@, model@),
{
    let lines = split_lines_exec(output);
    let ghost lm = lines@.map_values(|l: Vec<u8>| l@);
    let n = lines.len();
    let mut i: usize = 0;
    while i < n
        invariant
            n == lines@.len(),
            lm == lines@.map_values(|l: Vec<u8>| l@),
            lm == split_lines(output@),
            i <= n,
            forall|k: int|
                0 <= k < i ==> trimmed(#[trigger] split_lines(output@)[k]) != model@,
        decreases n - i,
    {
        let t = trim_bytes(lines[i].as_slice());
        if t.len() == model.len() && crate::bytes::match_at_exec(t.as_slice(), model, 0) {
            proof {
                assert(trimmed(split_lines(output@)[i as int]) =~= model@);
            }
            return true;
        }
        proof {
            if trimmed(split_lines(output@)[i as int]) == model@ {
                assert(match_at(t@, model@, 0));
            }
        }
        i += 1;
    }
    false
}

/// One model as the models endpoint shows it.
pub struct ModelObject {
    /// The model's name, as the listing gives it.
    pub id: Vec<u8>,
    pub object: &'static str,
    pub created: u64,
    pub owned_by: &'static str,
}

/// The whole response of the models endpoint.
pub struct ModelsListResponse {
    pub object: &'static str,
    pub data: Vec<ModelObject>,
}

/// The fixed timestamp shown for every model.
pub const MODEL_CREATED: u64 = 1700000000;

/// Builds one model object for the models endpoint.
pub fn model_object(id: Vec<u8>) -> (r: ModelObject)
    ensures
        r.id@ == id@,
        r.object@ == "model"@,
        r.created == MODEL_CREATED,
        r.owned_by@ == "litert-lm"@,
{
    ModelObject { id, object: "model", created: MODEL_CREATED, owned_by: "litert-lm" }
}

/// Builds the models-endpoint response for a set of names.
pub fn models_list_response(names: Vec<Vec<u8>>) -> (r: ModelsListResponse)
    ensures
        r.object@ == "list"@,
        r.data@.len() == names@.len(),
        forall|i: int|
            0 <= i < names@.len() ==> (#[trigger] r.data@[i]).id@ == names@[i]@
                && r.data@[i].object@ == "model"@ && r.data@[i].created == MODEL_CREATED
                && r.data@[i].owned_by@ == "litert-lm"@,
{
    let ghost nm = names@;
    let mut data: Vec<ModelObject> = Vec::new();
    let n = names.len();
    for i in 0..n
        invariant
            n == names@.len(),
            nm == names@,
            data@.len() == i,
            forall|k: int|
                0 <= k < i ==> (#[trigger] data@[k]).id@ == nm[k]@ && data@[k].object@ == "model"@
                    && data@[k].created == MODEL_CREATED && data@[k].owned_by@ == "litert-lm"@,
    {
        let id = vstd::slice::slice_to_vec(names[i].as_slice());
        data.push(model_object(id));
    }
    ModelsListResponse { object: "list", data }
}

} // verus!
