//! The info text that goes with a decoded parameter: a JSON object with the
//! parameter's record format and, for discrete parameters, their options.

use crate::config::Param;
use crate::qar::str_is;
use vstd::prelude::*;
use vstd::string::*;

verus! {

/// The JSON text that `serde_json::to_string` makes of a text.
pub uninterp spec fn json_string(s: Seq<char>) -> Seq<char>;

/// The JSON text that `serde_json::to_string` makes of a list of
/// (number, text) pairs.
pub uninterp spec fn json_options(o: Seq<(i16, Seq<char>)>) -> Seq<char>;

/// Options as plain values.
pub open spec fn options_view(o: Seq<(i16, String)>) -> Seq<(i16, Seq<char>)> {
    o.map_values(|p: (i16, String)| (p.0, p.1@))
}

/// Calls `serde_json::to_string` on a text.  Claimed: the result is the text
/// named [`json_string`] of it.  serde_json writes the escaped text into a
/// byte vector, which cannot fail, so the error arm is never taken.
#[verifier::external_body]
fn json_text_of(s: &str) -> (r: String)
    ensures
        r@ == json_string(s@),
{
    match serde_json::to_string(s) {
        Ok(t) => t,
        Err(_) => String::new(),
    }
}

/// Calls `serde_json::to_string` on a list of (number, text) pairs.  Claimed:
/// the result is the text named [`json_options`] of their plain values.
/// serde_json writes the numbers and escaped texts into a byte vector, which
/// cannot fail, so the error arm is never taken.
#[verifier::external_body]
fn json_text_of_options(o: &Vec<(i16, String)>) -> (r: String)
    ensures
        r@ == json_options(options_view(o@)),
{
    match serde_json::to_string(o) {
        Ok(t) => t,
        Err(_) => String::new(),
    }
}

/// The info text of a parameter: `{"RecFormat":...}`, and for the record
/// format "DIS" also its options, `{"Options":...,"RecFormat":...}` (the
/// object's keys in sorted order, as serde_json writes them).
pub open spec fn info_text(rec_format: Seq<char>, options: Seq<(i16, Seq<char>)>) -> Seq<char> {
    if rec_format == "DIS"@ {
        "{\"Options\":"@ + json_options(options) + ",\"RecFormat\":"@ + json_string(rec_format) + "}"@
    } else {
        "{\"RecFormat\":"@ + json_string(rec_format) + "}"@
    }
}

/// The info text that goes with the decoded values of parameter `prm` (see
/// [`info_text`]).
pub fn param_info(prm: &Param) -> (r: String)
    ensures
        r@ == info_text(prm.RecFormat@, options_view(prm.Options@)),
{
    let rec = json_text_of(prm.RecFormat.as_str());
    if str_is(&prm.RecFormat, "DIS") {
        let o = json_text_of_options(&prm.Options);
        let mut s = String::from_str("{\"Options\":");
        s.append(o.as_str());
        s.append(",\"RecFormat\":");
        s.append(rec.as_str());
        s.append("}");
        s
    } else {
        let mut s = String::from_str("{\"RecFormat\":");
        s.append(rec.as_str());
        s.append("}");
        s
    }
}

} // verus!
