//! The run on a whole compressed file: gzip decompression and UTF-8
//! decoding behind trusted wrappers, then a verified split into lines and
//! the accumulation over them.

use vstd::prelude::*;

use crate::annotation::{parse_annotation, spec_run, Annotation, GffError};
use crate::text::{split_char, split_on};
use vstd::utf8::{decode_utf8, valid_utf8};

verus! {

/// What gzip data decompresses to, if it decompresses at all.
pub uninterp spec fn gunzip_of(data: Seq<u8>) -> Option<Seq<u8>>;

/// Relies on flate2's `read::GzDecoder`: whether gzip data decompresses,
/// and to what, is a function of the bytes alone.
#[verifier::external_body]
fn gunzip(data: &[u8]) -> (r: Option<Vec<u8>>)
    ensures
        r is Some <==> gunzip_of(data@) is Some,
        r matches Some(v) ==> Some(v@) == gunzip_of(data@),
{
    let mut decoder = flate2::read::GzDecoder::new(data);
    let mut out = Vec::new();
    match std::io::Read::read_to_end(&mut decoder, &mut out) {
        Ok(_) => Some(out),
        Err(_) => None,
    }
}

/// Relies on `String::from_utf8`: it accepts exactly the valid UTF-8 byte
/// sequences and decodes them.
#[verifier::external_body]
fn bytes_to_string(data: Vec<u8>) -> (r: Option<String>)
    ensures
        r is Some <==> valid_utf8(data@),
        r matches Some(s) ==> s@ == decode_utf8(data@),
{
    match String::from_utf8(data) {
        Ok(s) => Some(s),
        Err(_) => None,
    }
}

/// A line's trailing carriage return, left by splitting CRLF-terminated
/// text on `\n`, is dropped.
pub open spec fn strip_cr(l: Seq<char>) -> Seq<char> {
    if l.len() > 0 && l.last() == '\r' {
        l.drop_last()
    } else {
        l
    }
}

/// The lines of `s`, as `BufRead::lines` yields them: pieces between `\n`
/// characters, each stripped of a trailing `\r`, and no empty piece after a
/// final `\n`.
pub open spec fn spec_lines(s: Seq<char>) -> Seq<Seq<char>> {
    let p = split_on(s, '\n');
    let main = p.take(p.len() - 1).map_values(|l: Seq<char>| strip_cr(l));
    if p.last().len() == 0 {
        main
    } else {
        main.push(p.last())
    }
}

/// Splits text into lines as `BufRead::lines` does over the same
/// characters.
pub fn split_lines(s: &str) -> (r: Vec<String>)
    ensures
        r.deep_view() == spec_lines(s@),
{
    let parts = split_char(s, '\n');
    let ghost pv = parts.deep_view();
    let m = parts.len();
    let mut r: Vec<String> = Vec::new();
    let mut i: usize = 0;
    while i < m - 1
        invariant
            m == parts.len(),
            m >= 1,
            i <= m - 1,
            pv == parts.deep_view(),
            pv == split_on(s@, '\n'),
            r.deep_view().len() == i,
            forall|j: int| 0 <= j < i ==> r.deep_view()[j] == strip_cr(#[trigger] pv[j]),
        decreases m - i,
    {
        let ghost r0 = r.deep_view();
        let line = &parts[i];
        proof {
            assert(pv[i as int] == parts@[i as int]@);
        }
        let ln = line.as_str().unicode_len();
        if ln > 0 && line.as_str().get_char(ln - 1) == '\r' {
            let stripped = line.as_str().substring_char(0, ln - 1);
            r.push(stripped.to_owned());
            proof {
                assert(pv[i as int].subrange(0, ln - 1) =~= pv[i as int].drop_last());
                assert(r.deep_view() =~= r0.push(strip_cr(pv[i as int])));
            }
        } else {
            r.push(line.clone());
            proof {
                assert(strip_cr(pv[i as int]) == pv[i as int]);
                assert(r.deep_view() =~= r0.push(strip_cr(pv[i as int])));
            }
        }
        i += 1;
    }
    let last = &parts[m - 1];
    proof {
        assert(pv[m - 1] == parts@[m - 1]@);
    }
    if !last.as_str().is_empty() {
        r.push(last.clone());
        proof {
            assert(pv.last() == pv[m - 1]);
            assert(r.deep_view() =~= spec_lines(s@));
        }
    } else {
        proof {
            assert(pv.last() == pv[m - 1]);
            assert(r.deep_view() =~= spec_lines(s@));
        }
    }
    r
}

/// The whole run on one gzip-compressed GFF3 file: decompress, decode as
/// UTF-8, split into lines, and accumulate over them; a file that is not
/// gzip data or not text fails with `Decode`, and a malformed matched line
/// aborts with its parse error and no partial result.
pub fn parse_gff3(data: &[u8]) -> (r: Result<Annotation, GffError>)
    ensures
        match gunzip_of(data@) {
            None => r == Err::<Annotation, GffError>(GffError::Decode),
            Some(bytes) => {
                if !valid_utf8(bytes) {
                    r == Err::<Annotation, GffError>(GffError::Decode)
                } else {
                    match spec_run(spec_lines(decode_utf8(bytes))) {
                        Ok(m) => r matches Ok(a) && a.wf() && a@ == m,
                        Err(e) => r matches Err(e2) && e2 == e,
                    }
                }
            },
        },
{
    let bytes = match gunzip(data) {
        Some(b) => b,
        None => {
            return Err(GffError::Decode);
        },
    };
    let text = match bytes_to_string(bytes) {
        Some(t) => t,
        None => {
            return Err(GffError::Decode);
        },
    };
    let lines = split_lines(text.as_str());
    parse_annotation(&lines)
}

} // verus!
