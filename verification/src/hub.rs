//! Hugging Face Hub downloads: addresses, and what to do at each step.
//!
//! The transfer itself happens outside; here a reply's status, the sizes known
//! and the bytes received decide what comes next and which error is reported.
use vstd::prelude::*;
use vstd::string::*;

use crate::json::{parse_bytes, Json};
use crate::text::{decimal, joined, same_text};

verus! {

pub const BASE: &'static str = "https://huggingface.co";

pub const DEFAULT_REPO: &'static str = "google/gemma-4-E2B-it-qat-mobile-transformers";

/// Address of a file at a revision of a repository.
pub fn file_url(repo: &str, file: &str, revision: &str) -> (r: String)
    ensures
        r@ == BASE@ + "/"@ + repo@ + "/resolve/"@ + revision@ + "/"@ + file@,
{
    let mut s = joined(BASE, "/");
    s.append(repo);
    s.append("/resolve/");
    s.append(revision);
    s.append("/");
    s.append(file);
    s
}

/// The names of the files the text engine needs.
pub open spec fn model_file_names() -> Seq<Seq<char>> {
    seq![
        "config.json"@,
        "tokenizer.json"@,
        "tokenizer_config.json"@,
        "generation_config.json"@,
        "model.safetensors"@,
    ]
}

/// The files the text engine needs.
pub fn model_files() -> (r: Vec<String>)
    ensures
        r@.map_values(|s: String| s@) == model_file_names(),
{
    let mut v: Vec<String> = Vec::new();
    v.push("config.json".to_owned());
    v.push("tokenizer.json".to_owned());
    v.push("tokenizer_config.json".to_owned());
    v.push("generation_config.json".to_owned());
    v.push("model.safetensors".to_owned());
    proof {
        assert(v@.map_values(|s: String| s@) =~= model_file_names());
    }
    v
}

/// Files that a repository may lack.
pub open spec fn is_optional_name(file: Seq<char>) -> bool {
    file == "tokenizer_config.json"@ || file == "generation_config.json"@
}

pub fn is_optional(file: &str) -> (r: bool)
    ensures
        r == is_optional_name(file@),
{
    same_text(file, "tokenizer_config.json") || same_text(file, "generation_config.json")
}

/// What an access token sends along; an empty one sends nothing.
pub open spec fn authorization(token: Option<Seq<char>>) -> Option<Seq<char>> {
    match token {
        Some(t) => if t.len() > 0 {
            Some("Bearer "@ + t)
        } else {
            None
        },
        None => None,
    }
}

/// The authorization header's value.
pub fn authorization_header(token: Option<&str>) -> (r: Option<String>)
    ensures
        match token {
            Some(t) => match authorization(Some(t@)) {
                Some(h) => r is Some && r->0@ == h,
                None => r is None,
            },
            None => r is None,
        },
{
    match token {
        Some(t) => {
            if t.is_empty() {
                None
            } else {
                Some(joined("Bearer ", t))
            }
        },
        None => None,
    }
}

/// What is wrong with a reply, by its status.
pub open spec fn status_error(repo: Seq<char>, file: Seq<char>, status: u16) -> Option<Seq<char>> {
    let head = file + ": HTTP "@ + crate::text::decimal_text(status as nat);
    if status == 401 || status == 403 {
        Some(
            head + ". This repo is gated — accept the license on huggingface.co/"@ + repo
                + " and set HF_TOKEN to a read token."@,
        )
    } else if status != 200 {
        Some(head)
    } else {
        None
    }
}

/// What follows the headers of a reply.
pub enum Transfer {
    /// Report this error.
    Fail(String),
    /// A complete copy is there already.
    Present(u64),
    /// Receive the body.
    Receive,
}

/// Decide on a reply: its status, its announced size, and the size of the file
/// already there.
pub fn on_reply(repo: &str, file: &str, status: u16, total: Option<u64>, existing: Option<u64>) -> (r: Transfer)
    ensures
        match status_error(repo@, file@, status) {
            Some(e) => r is Fail && r->Fail_0@ == e,
            None => if total is Some && existing == total {
                r is Present && r->Present_0 == total->0
            } else {
                r is Receive
            },
        },
{
    if status != 200 {
        let mut e = joined(file, ": HTTP ");
        e.append(decimal(status as u64).as_str());
        if status == 401 || status == 403 {
            e.append(". This repo is gated — accept the license on huggingface.co/");
            e.append(repo);
            e.append(" and set HF_TOKEN to a read token.");
        }
        return Transfer::Fail(e);
    }
    if let Some(t) = total {
        if let Some(have) = existing {
            if have == t {
                return Transfer::Present(t);
            }
        }
    }
    Transfer::Receive
}

/// Name of the file that holds an unfinished download.
pub fn part_name(file: &str) -> (r: String)
    ensures
        r@ == file@ + ".part"@,
{
    joined(file, ".part")
}

/// Bytes received so far; `n` more have come.
pub fn on_bytes(done: u64, n: usize) -> (r: u64)
    requires
        done + n <= u64::MAX,
    ensures
        r == done + n,
{
    done + n as u64
}

/// The error of a download that ended early.
pub open spec fn end_error(file: Seq<char>, done: u64, total: Option<u64>) -> Option<Seq<char>> {
    match total {
        Some(t) => if done != t {
            Some(
                file + ": truncated download ("@ + crate::text::decimal_text(done as nat) + " of "@
                    + crate::text::decimal_text(t as nat) + " bytes)"@,
            )
        } else {
            None
        },
        None => None,
    }
}

/// The body has ended: all of it came, or the download was cut short.
pub fn on_end(file: &str, done: u64, total: Option<u64>) -> (r: Result<(), String>)
    ensures
        match end_error(file@, done, total) {
            Some(e) => r is Err && r->Err_0@ == e,
            None => r is Ok,
        },
{
    if let Some(t) = total {
        if done != t {
            let mut e = joined(file, ": truncated download (");
            e.append(decimal(done).as_str());
            e.append(" of ");
            e.append(decimal(t).as_str());
            e.append(" bytes)");
            return Err(e);
        }
    }
    Ok(())
}

/// Whether to show progress now: always at the end, else every 200 ms.
pub fn shows_progress(since_last_ms: u128, done: u64, total: Option<u64>) -> (r: bool)
    ensures
        r == !(since_last_ms < 200 && total is Some && done < total->0),
{
    match total {
        Some(t) => !(since_last_ms < 200 && done < t),
        None => true,
    }
}

/// A small JSON file out of a reply.
pub fn fetched_json(file: &str, status: u16, body: &[u8]) -> (r: Result<Json, String>)
    ensures
        status != 200 ==> r is Err && r->Err_0@ == file@ + ": HTTP "@ + crate::text::decimal_text(status as nat),
        status == 200 ==> (r is Ok <==> crate::json::parsed_bytes(body@) is Ok),
        status == 200 && r is Ok ==> r->Ok_0@ == crate::json::parsed_bytes(body@)->Ok_0,
        status == 200 && r is Err ==> r->Err_0@ == file@ + ": "@ + crate::json::parsed_bytes(body@)->Err_0,
{
    if status != 200 {
        let mut e = joined(file, ": HTTP ");
        e.append(decimal(status as u64).as_str());
        return Err(e);
    }
    match parse_bytes(body) {
        Ok(j) => Ok(j),
        Err(e) => {
            let mut m = joined(file, ": ");
            m.append(e.as_str());
            Err(m)
        },
    }
}

} // verus!
