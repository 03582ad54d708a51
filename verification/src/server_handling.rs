//! What the server decides about a connection and its own settings: whether
//! a request is an admin request, what an admin request holds, where the
//! server listens and how many worker threads it runs.

use vstd::prelude::*;
use vstd::string::*;
use vstd::utf8::{decode_utf8, encode_utf8, valid_utf8};
use crate::adm_commands::{
    command_interpreter, command_of, command_views, interpret_request_text, is_writable,
    law_interpret_rendered_request, render_command, render_request, AdmCommands, AdmCommandsView,
};
use crate::numbers::{decimal, decimal_text, digit_char, parse_usize, parse_usize_spec};
use crate::text::{
    has_prefix, has_prefix_text, lemma_join_starts_with_first, lemma_trim_keeps_prefix, trim,
    trim_text,
};

verus! {

/// The TCP port of the quote-of-the-day service (RFC 865).
pub const PORT: u32 = 17;

/// The text of `bytes` as `String::from_utf8_lossy` decodes it, invalid
/// sequences replaced by U+FFFD.
pub uninterp spec fn utf8_lossy(bytes: Seq<u8>) -> Seq<char>;

/// `std::str::from_utf8`: the text that `data` encodes, where it is valid
/// UTF-8, and `None` otherwise.
#[verifier::external_body]
fn utf8_text(data: &[u8]) -> (res: Option<&str>)
    ensures
        res is Some <==> valid_utf8(data@),
        res matches Some(s) ==> s@ == decode_utf8(data@),
{
    std::str::from_utf8(data).ok()
}

/// `String::from_utf8_lossy`: the text of `data`, invalid sequences replaced
/// by U+FFFD. The replacement rule is not stated; the documentation's promise
/// that valid UTF-8 is decoded unchanged is.
#[verifier::external_body]
fn utf8_text_lossy(data: &[u8]) -> (s: String)
    ensures
        s@ == utf8_lossy(data@),
        valid_utf8(data@) ==> s@ == decode_utf8(data@),
{
    String::from_utf8_lossy(data).into_owned()
}

/// `data` is an admin request: valid UTF-8 whose text, without surrounding
/// white space, begins with `pw`.
pub open spec fn is_admin_request(data: Seq<u8>) -> bool {
    valid_utf8(data) && has_prefix(trim(decode_utf8(data)), "pw"@)
}

/// Whether the bytes a client sent are an admin request.
pub fn is_admin_command(data: &[u8]) -> (b: bool)
    ensures
        b == is_admin_request(data@),
{
    match utf8_text(data) {
        Some(command_str) => {
            let trimmed = trim_text(command_str);
            has_prefix_text(trimmed.as_str(), "pw")
        },
        None => false,
    }
}

/// The commands of the admin request `data`, read as text with invalid UTF-8
/// replaced, or the error of its first malformed command.
pub fn interpret_request(data: &[u8]) -> (res: Result<Vec<AdmCommands>, String>)
    ensures
        match res {
            Ok(cmds) => interpret_request_text(utf8_lossy(data@)) == Ok::<
                Seq<AdmCommandsView>,
                Seq<char>,
            >(command_views(cmds@)),
            Err(e) => interpret_request_text(utf8_lossy(data@)) == Err::<
                Seq<AdmCommandsView>,
                Seq<char>,
            >(e@),
        },
        valid_utf8(data@) ==> utf8_lossy(data@) == decode_utf8(data@),
{
    let raw_commands = utf8_text_lossy(data);
    command_interpreter(&raw_commands)
}

/// A request written from commands whose first is a password command is
/// taken for an admin request, and reading it gives those commands back.
pub proof fn law_password_request_is_admin(cmds: Seq<(Seq<char>, Seq<Seq<char>>)>)
    requires
        cmds.len() > 0,
        cmds[0].0 == "pw"@,
        forall|k: int| 0 <= k < cmds.len() ==> is_writable(#[trigger] cmds[k]),
    ensures
        is_admin_request(encode_utf8(render_request(cmds))),
        interpret_request_text(decode_utf8(encode_utf8(render_request(cmds))))
            == Ok::<Seq<AdmCommandsView>, Seq<char>>(
            cmds.map_values(|c: (Seq<char>, Seq<Seq<char>>)| command_of(c.0, c.1)),
        ),
{
    broadcast use vstd::utf8::encode_utf8_valid_utf8, vstd::utf8::encode_utf8_decode_utf8;

    reveal_strlit("pw");
    let text = render_request(cmds);
    law_interpret_rendered_request(cmds);
    let pieces = cmds.map_values(|c: (Seq<char>, Seq<Seq<char>>)| render_command(c.0, c.1));
    let first = render_command(cmds[0].0, cmds[0].1);
    assert(pieces[0] == first);
    assert(first[0] == 'p' && first[1] == 'w' && first[2] == ':');
    lemma_join_starts_with_first(pieces, '|');
    assert(text.take(3) =~= first.take(3)) by {
        assert(text.take(first.len() as int).take(3) =~= text.take(3));
        assert(first.take(3) =~= first.take(first.len() as int).take(3));
    }
    assert(text[0] == 'p' && text[1] == 'w');
    lemma_trim_keeps_prefix(text, 1);
    assert(trim(text).take(2) =~= "pw"@);
}

/// The host the server listens on: the configured one, or `127.0.0.1`.
pub open spec fn host_or_default(ip: Option<Seq<char>>) -> Seq<char> {
    match ip {
        Some(h) => h,
        None => "127.0.0.1"@,
    }
}

/// The address the server listens on: the configured host (or `127.0.0.1`),
/// `:`, and the port.
pub fn server_address(ip: Option<String>) -> (addr: String)
    ensures
        addr@ == host_or_default(
            match ip {
                Some(h) => Some(h@),
                None => None,
            },
        ) + ":"@ + decimal(PORT as nat),
{
    let mut addr = match ip {
        Some(h) => h,
        None => "127.0.0.1".to_owned(),
    };
    addr.append(":");
    let port = decimal_text(PORT as u64);
    addr.append(port.as_str());
    addr
}

/// A configured host is used as it stands: the server listens on it, at
/// port 17.
pub proof fn law_configured_host_is_used(h: Seq<char>)
    ensures
        host_or_default(Some(h)) == h,
        host_or_default(Some(h)) + ":"@ + decimal(PORT as nat) == h + ":17"@,
{
    reveal_strlit(":");
    reveal_strlit(":17");
    let d = decimal(17);
    assert(d == decimal(1).push(digit_char(7)));
    assert(decimal(1) == seq![digit_char(1)]);
    assert(digit_char(1) == '1');
    assert(digit_char(7) == '7');
    assert(h + ":"@ + d =~= h + ":17"@);
}

/// The size of the worker pool: the configured number where it reads as a
/// `usize`, and 4 where it is not configured or does not read.
pub open spec fn pool_size_spec(configured: Option<Seq<char>>) -> usize {
    match configured {
        Some(s) => match parse_usize_spec(s) {
            Some(n) => n,
            None => 4,
        },
        None => 4,
    }
}

/// The size of the worker pool for the configured value.
pub fn pool_size(configured: Option<String>) -> (n: usize)
    ensures
        n == pool_size_spec(
            match configured {
                Some(s) => Some(s@),
                None => None,
            },
        ),
{
    let text = match configured {
        Some(s) => s,
        None => "4".to_owned(),
    };
    proof {
        reveal_strlit("4");
        crate::numbers::law_usize_text_roundtrip(4);
    }
    assert(decimal(4) =~= "4"@);
    match parse_usize(text.as_str()) {
        Some(n) => n,
        None => 4,
    }
}

/// A configured pool size that reads as a number is the size used, every
/// number alike: writing a size in decimal gives a pool of that size.
pub proof fn law_configured_pool_size(s: Seq<char>, n: usize)
    ensures
        parse_usize_spec(s) == Some(n) ==> pool_size_spec(Some(s)) == n,
        pool_size_spec(Some(decimal(n as nat))) == n,
{
    crate::numbers::law_usize_text_roundtrip(n);
}

} // verus!
