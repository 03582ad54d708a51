//! Admin commands: what a request such as
//! `pw:"admin"|addquote:"A new quote" "Its author"` asks the server to do.
//!
//! A request is a list of commands separated by `|`. Each command that is not
//! blank is a name, a `:`, and a list of double-quoted arguments (see
//! [`crate::quoted`]); the name is taken without surrounding white space.

use vstd::prelude::*;
use vstd::string::*;
use crate::quoted::{
    is_plain_arg, law_quoted_args_ignore_leading, law_quoted_args_roundtrip, lemma_quoted_args_extend, lemma_render_args_lacks,
    parse_quoted_args, quoted_args, render_args,
};
use crate::text::{
    all_white_space, index_of, is_white_space, join_with, lacks, law_split_join,
    lemma_index_of_bounds, lemma_index_of_extend, lemma_index_of_found, lemma_split_on_extend,
    lemma_split_on_nonempty, lemma_split_on_single, lemma_trim_all_white_space, lemma_trim_not_empty, split_once,
    split_once_text, split_on, split_text, trim, trim_text,
};

verus! {

/// An admin command with its arguments.
#[derive(Debug)]
pub enum AdmCommands {
    Password(Vec<String>),
    AddQuote(Vec<String>),
    ChangeDefault(Vec<String>),
    ChangeIP(Vec<String>),
    ChangePool(Vec<String>),
    ChangeMaxReq(Vec<String>),
    ChangePassword(Vec<String>),
    Unknown { _command: String, _args: Vec<String> },
}

/// An admin command as a mathematical value: its kind and its arguments as
/// character sequences.
pub enum AdmCommandsView {
    Password(Seq<Seq<char>>),
    AddQuote(Seq<Seq<char>>),
    ChangeDefault(Seq<Seq<char>>),
    ChangeIP(Seq<Seq<char>>),
    ChangePool(Seq<Seq<char>>),
    ChangeMaxReq(Seq<Seq<char>>),
    ChangePassword(Seq<Seq<char>>),
    Unknown { command: Seq<char>, args: Seq<Seq<char>> },
}

impl View for AdmCommands {
    type V = AdmCommandsView;

    open spec fn view(&self) -> AdmCommandsView {
        match self {
            AdmCommands::Password(a) => AdmCommandsView::Password(a.deep_view()),
            AdmCommands::AddQuote(a) => AdmCommandsView::AddQuote(a.deep_view()),
            AdmCommands::ChangeDefault(a) => AdmCommandsView::ChangeDefault(a.deep_view()),
            AdmCommands::ChangeIP(a) => AdmCommandsView::ChangeIP(a.deep_view()),
            AdmCommands::ChangePool(a) => AdmCommandsView::ChangePool(a.deep_view()),
            AdmCommands::ChangeMaxReq(a) => AdmCommandsView::ChangeMaxReq(a.deep_view()),
            AdmCommands::ChangePassword(a) => AdmCommandsView::ChangePassword(a.deep_view()),
            AdmCommands::Unknown { _command, _args } => AdmCommandsView::Unknown {
                command: _command@,
                args: _args.deep_view(),
            },
        }
    }
}

/// The command that the name `name` selects, with the arguments `args`:
/// one of seven keywords, or else an unknown command that keeps both.
pub open spec fn command_of(name: Seq<char>, args: Seq<Seq<char>>) -> AdmCommandsView {
    if name == "pw"@ {
        AdmCommandsView::Password(args)
    } else if name == "addquote"@ {
        AdmCommandsView::AddQuote(args)
    } else if name == "changedef"@ {
        AdmCommandsView::ChangeDefault(args)
    } else if name == "changeip"@ {
        AdmCommandsView::ChangeIP(args)
    } else if name == "changepool"@ {
        AdmCommandsView::ChangePool(args)
    } else if name == "changemaxreq"@ {
        AdmCommandsView::ChangeMaxReq(args)
    } else if name == "changepassword"@ {
        AdmCommandsView::ChangePassword(args)
    } else {
        AdmCommandsView::Unknown { command: name, args }
    }
}

/// The views of a list of commands.
pub open spec fn command_views(cmds: Seq<AdmCommands>) -> Seq<AdmCommandsView> {
    cmds.map_values(|c: AdmCommands| c@)
}

/// Whether `s` is the text `w`.
fn is_text(s: &String, w: &str) -> (b: bool)
    ensures
        b == (s@ == w@),
{
    let other = w.to_owned();
    s.eq(&other)
}

impl From<(String, Vec<String>)> for AdmCommands {
    fn from(v: (String, Vec<String>)) -> (c: Self) {
        let (command, args) = v;
        if is_text(&command, "pw") {
            AdmCommands::Password(args)
        } else if is_text(&command, "addquote") {
            AdmCommands::AddQuote(args)
        } else if is_text(&command, "changedef") {
            AdmCommands::ChangeDefault(args)
        } else if is_text(&command, "changeip") {
            AdmCommands::ChangeIP(args)
        } else if is_text(&command, "changepool") {
            AdmCommands::ChangePool(args)
        } else if is_text(&command, "changemaxreq") {
            AdmCommands::ChangeMaxReq(args)
        } else if is_text(&command, "changepassword") {
            AdmCommands::ChangePassword(args)
        } else {
            AdmCommands::Unknown { _command: command, _args: args }
        }
    }
}

impl vstd::std_specs::convert::FromSpecImpl<(String, Vec<String>)> for AdmCommands {
    open spec fn obeys_from_spec() -> bool {
        true
    }

    open spec fn from_spec(v: (String, Vec<String>)) -> AdmCommands {
        if v.0@ == "pw"@ {
            AdmCommands::Password(v.1)
        } else if v.0@ == "addquote"@ {
            AdmCommands::AddQuote(v.1)
        } else if v.0@ == "changedef"@ {
            AdmCommands::ChangeDefault(v.1)
        } else if v.0@ == "changeip"@ {
            AdmCommands::ChangeIP(v.1)
        } else if v.0@ == "changepool"@ {
            AdmCommands::ChangePool(v.1)
        } else if v.0@ == "changemaxreq"@ {
            AdmCommands::ChangeMaxReq(v.1)
        } else if v.0@ == "changepassword"@ {
            AdmCommands::ChangePassword(v.1)
        } else {
            AdmCommands::Unknown { _command: v.0, _args: v.1 }
        }
    }
}

/// The error that a non-blank command without a `:` gives.
pub open spec fn malformed_message(raw: Seq<char>) -> Seq<char> {
    "Malformed command missing colon: "@ + raw
}

/// The commands of the pieces `segs` of a request, in order, or the error of
/// the first piece that is not blank and holds no `:`. Blank pieces are
/// skipped.
pub open spec fn interpret_pieces(segs: Seq<Seq<char>>) -> Result<Seq<AdmCommandsView>, Seq<char>>
    decreases segs.len(),
{
    if segs.len() == 0 {
        Ok(seq![])
    } else {
        match interpret_pieces(segs.drop_last()) {
            Err(e) => Err(e),
            Ok(cmds) => {
                let raw = segs.last();
                if trim(raw).len() == 0 {
                    Ok(cmds)
                } else {
                    match split_once(raw, ':') {
                        None => Err(malformed_message(raw)),
                        Some((name, args)) => Ok(cmds.push(command_of(trim(name), quoted_args(args)))),
                    }
                }
            },
        }
    }
}

/// What the request text `s` asks for: the commands of its `|`-separated
/// pieces, or the error of its first malformed piece.
pub open spec fn interpret_request_text(s: Seq<char>) -> Result<Seq<AdmCommandsView>, Seq<char>> {
    interpret_pieces(split_on(s, '|'))
}

proof fn lemma_error_persists(segs: Seq<Seq<char>>, k: int, e: Seq<char>)
    requires
        0 <= k <= segs.len(),
        interpret_pieces(segs.take(k)) == Err::<Seq<AdmCommandsView>, Seq<char>>(e),
    ensures
        interpret_pieces(segs) == Err::<Seq<AdmCommandsView>, Seq<char>>(e),
    decreases segs.len() - k,
{
    if k < segs.len() {
        assert(segs.take(k + 1).drop_last() =~= segs.take(k));
        lemma_error_persists(segs, k + 1, e);
    } else {
        assert(segs.take(k) =~= segs);
    }
}

/// The command `name` with the arguments `args` as a request writes it.
pub open spec fn render_command(name: Seq<char>, args: Seq<Seq<char>>) -> Seq<char> {
    name + seq![':'] + render_args(args)
}

/// The request that asks for the commands (name, arguments) `cmds`, in order.
pub open spec fn render_request(cmds: Seq<(Seq<char>, Seq<Seq<char>>)>) -> Seq<char> {
    join_with(
        cmds.map_values(|c: (Seq<char>, Seq<Seq<char>>)| render_command(c.0, c.1)),
        '|',
    )
}

/// The command (name, arguments) `c` can be written in a request as it is:
/// its name holds no `|` or `:` and no surrounding white space, and its
/// arguments hold no `"`, backslash or `|`.
pub open spec fn is_writable(c: (Seq<char>, Seq<Seq<char>>)) -> bool {
    &&& lacks(c.0, '|')
    &&& lacks(c.0, ':')
    &&& trim(c.0) == c.0
    &&& forall|k: int|
        0 <= k < c.1.len() ==> is_plain_arg(#[trigger] c.1[k]) && lacks(c.1[k], '|')
}

proof fn lemma_interpret_rendered_pieces(cmds: Seq<(Seq<char>, Seq<Seq<char>>)>)
    requires
        forall|k: int| 0 <= k < cmds.len() ==> is_writable(#[trigger] cmds[k]),
    ensures
        interpret_pieces(
            cmds.map_values(|c: (Seq<char>, Seq<Seq<char>>)| render_command(c.0, c.1)),
        ) == Ok::<Seq<AdmCommandsView>, Seq<char>>(
            cmds.map_values(|c: (Seq<char>, Seq<Seq<char>>)| command_of(c.0, c.1)),
        ),
    decreases cmds.len(),
{
    let pieces = cmds.map_values(|c: (Seq<char>, Seq<Seq<char>>)| render_command(c.0, c.1));
    let views = cmds.map_values(|c: (Seq<char>, Seq<Seq<char>>)| command_of(c.0, c.1));
    if cmds.len() == 0 {
        assert(views =~= Seq::<AdmCommandsView>::empty());
    } else {
        let prev = cmds.drop_last();
        assert forall|k: int| 0 <= k < prev.len() implies is_writable(#[trigger] prev[k]) by {
            assert(prev[k] == cmds[k]);
        }
        lemma_interpret_rendered_pieces(prev);
        assert(pieces.drop_last() =~= prev.map_values(
            |c: (Seq<char>, Seq<Seq<char>>)| render_command(c.0, c.1),
        ));
        let c = cmds.last();
        assert(is_writable(cmds[cmds.len() - 1]));
        let name = c.0;
        let args = c.1;
        let ra = render_args(args);
        let raw = pieces.last();
        assert(raw == name + seq![':'] + ra);
        let l = name.len() as int;
        assert(raw[l] == ':');
        lemma_trim_not_empty(raw, l);
        assert forall|j: int| 0 <= j < l implies raw[j] != ':' by {
            assert(raw[j] == name[j]);
        }
        lemma_index_of_found(raw, ':', l);
        assert(raw.take(l) =~= name);
        assert(raw.skip(l + 1) =~= ra);
        law_quoted_args_roundtrip(args);
        assert(views =~= prev.map_values(
            |c: (Seq<char>, Seq<Seq<char>>)| command_of(c.0, c.1),
        ).push(command_of(name, args)));
    }
}

/// Reading a request that is written from commands gives those commands
/// back, in order, where each command can be written as it is.
pub proof fn law_interpret_rendered_request(cmds: Seq<(Seq<char>, Seq<Seq<char>>)>)
    requires
        cmds.len() > 0,
        forall|k: int| 0 <= k < cmds.len() ==> is_writable(#[trigger] cmds[k]),
    ensures
        interpret_request_text(render_request(cmds)) == Ok::<Seq<AdmCommandsView>, Seq<char>>(
            cmds.map_values(|c: (Seq<char>, Seq<Seq<char>>)| command_of(c.0, c.1)),
        ),
{
    let pieces = cmds.map_values(|c: (Seq<char>, Seq<Seq<char>>)| render_command(c.0, c.1));
    assert forall|k: int| 0 <= k < pieces.len() implies lacks(#[trigger] pieces[k], '|') by {
        let c = cmds[k];
        assert(is_writable(c));
        let ra = render_args(c.1);
        assert forall|m: int| 0 <= m < c.1.len() implies lacks(#[trigger] c.1[m], '|') by {
            assert(is_plain_arg(c.1[m]) && lacks(c.1[m], '|'));
        }
        lemma_render_args_lacks(c.1, '|');
        let p = pieces[k];
        assert(p == c.0 + seq![':'] + ra);
        assert forall|i: int| 0 <= i < p.len() implies #[trigger] p[i] != '|' by {
            if i < c.0.len() {
                assert(p[i] == c.0[i]);
            } else if i > c.0.len() {
                assert(p[i] == ra[i - c.0.len() - 1]);
            }
        }
    }
    law_split_join(pieces, '|');
    lemma_interpret_rendered_pieces(cmds);
}

/// White space at the end of a request, such as the line feed that an
/// interactive client sends, does not change what a readable request asks.
pub proof fn law_trailing_white_space(s: Seq<char>, w: Seq<char>)
    requires
        interpret_request_text(s) is Ok,
        all_white_space(w),
    ensures
        interpret_request_text(s + w) == interpret_request_text(s),
{
    assert forall|c: char| c == '|' || c == '"' || c == '\\' || c == ':' implies lacks(w, c) by {
        assert forall|i: int| 0 <= i < w.len() implies #[trigger] w[i] != c by {
            assert(is_white_space(w[i]));
        }
    }
    assert(lacks(w, '|'));
    lemma_split_on_extend(s, w, '|');
    let segs = split_on(s, '|');
    lemma_split_on_nonempty(s, '|');
    let n = segs.len() - 1;
    let segs2 = split_on(s + w, '|');
    assert(segs2.drop_last() =~= segs.drop_last());
    let raw = segs.last();
    assert(segs2.last() == raw + w);
    let prefix = interpret_pieces(segs.drop_last());
    assert(prefix is Ok);
    if trim(raw).len() == 0 {
        assert(all_white_space(raw + w)) by {
            assert forall|i: int| 0 <= i < (raw + w).len() implies is_white_space(
                #[trigger] (raw + w)[i],
            ) by {
                if i < raw.len() {
                    if !is_white_space(raw[i]) {
                        lemma_trim_not_empty(raw, i);
                    }
                } else {
                    assert((raw + w)[i] == w[i - raw.len()]);
                }
            }
        }
        lemma_trim_all_white_space(raw + w);
    } else {
        assert(index_of(raw, ':') is Some);
        let c = index_of(raw, ':')->0;
        lemma_index_of_bounds(raw, ':');
        lemma_index_of_extend(raw, w, ':');
        assert(exists|k: int| 0 <= k < raw.len() && !is_white_space(raw[k])) by {
            if !(exists|k: int| 0 <= k < raw.len() && !is_white_space(raw[k])) {
                lemma_trim_all_white_space(raw);
            }
        }
        let k = choose|k: int| 0 <= k < raw.len() && !is_white_space(raw[k]);
        assert((raw + w)[k] == raw[k]);
        lemma_trim_not_empty(raw + w, k);
        assert((raw + w).take(c) =~= raw.take(c));
        assert((raw + w).skip(c + 1) =~= raw.skip(c + 1) + w);
        lemma_quoted_args_extend(raw.skip(c + 1), w, 0);
    }
}

/// A request of one piece that holds a `:` is one command: its name is the
/// text before the first `:`, trimmed, and its arguments are all the quoted
/// arguments of the whole text after that `:`, wherever they stand in it.
pub proof fn law_interpret_one_piece(name: Seq<char>, rest: Seq<char>)
    requires
        lacks(name, ':'),
        lacks(name, '|'),
        lacks(rest, '|'),
    ensures
        interpret_request_text(name + seq![':'] + rest) == Ok::<Seq<AdmCommandsView>, Seq<char>>(
            seq![command_of(trim(name), quoted_args(rest))],
        ),
{
    let piece = name + seq![':'] + rest;
    let l = name.len() as int;
    assert forall|i: int| 0 <= i < piece.len() implies #[trigger] piece[i] != '|' by {
        if i < l {
            assert(piece[i] == name[i]);
        } else if i > l {
            assert(piece[i] == rest[i - l - 1]);
        }
    }
    lemma_split_on_single(piece, '|');
    let segs = seq![piece];
    assert(segs.drop_last() =~= Seq::<Seq<char>>::empty());
    assert(piece[l] == ':');
    lemma_trim_not_empty(piece, l);
    assert forall|j: int| 0 <= j < l implies piece[j] != ':' by {
        assert(piece[j] == name[j]);
    }
    lemma_index_of_found(piece, ':', l);
    assert(piece.take(l) =~= name);
    assert(piece.skip(l + 1) =~= rest);
    assert(split_once(piece, ':') == Some((name, rest)));
    assert(interpret_pieces(segs.drop_last()) == Ok::<Seq<AdmCommandsView>, Seq<char>>(seq![]));
    assert(segs.last() == piece);
    assert(trim(piece).len() != 0);
    assert(seq![command_of(trim(name), quoted_args(rest))] =~= Seq::<AdmCommandsView>::empty().push(
        command_of(trim(name), quoted_args(rest)),
    ));
    assert(interpret_pieces(segs) == Ok::<Seq<AdmCommandsView>, Seq<char>>(
        seq![command_of(trim(name), quoted_args(rest))],
    ));
    assert(split_on(piece, '|') == segs);
}

/// Text without `"` or `|` between the `:` of a written command and its
/// arguments, such as white space, changes nothing: the request reads as
/// that command with all its arguments.
pub proof fn law_space_after_colon(name: Seq<char>, args: Seq<Seq<char>>, w: Seq<char>)
    requires
        is_writable((name, args)),
        lacks(w, '"'),
        lacks(w, '|'),
    ensures
        interpret_request_text(name + seq![':'] + w + render_args(args)) == Ok::<
            Seq<AdmCommandsView>,
            Seq<char>,
        >(seq![command_of(name, args)]),
{
    let ra = render_args(args);
    let c = (name, args);
    assert(is_writable(c));
    assert(c.1 == args);
    assert forall|m: int| 0 <= m < args.len() implies lacks(#[trigger] args[m], '|')
        && is_plain_arg(args[m]) by {
        assert(is_plain_arg(c.1[m]) && lacks(c.1[m], '|'));
    }
    lemma_render_args_lacks(args, '|');
    let rest = w + ra;
    assert forall|i: int| 0 <= i < rest.len() implies #[trigger] rest[i] != '|' by {
        if i < w.len() {
            assert(rest[i] == w[i]);
        } else {
            assert(rest[i] == ra[i - w.len()]);
        }
    }
    assert(name + seq![':'] + w + ra =~= name + seq![':'] + rest);
    law_interpret_one_piece(name, rest);
    law_quoted_args_ignore_leading(w, ra);
    law_quoted_args_roundtrip(args);
}

/// Reads the commands of a request: splits it at `|`, skips blank pieces,
/// and reads each other piece as a command name, a `:` and quoted arguments.
/// A piece without `:` stops the reading with an error that quotes it.
pub fn command_interpreter(commands: &String) -> (res: Result<Vec<AdmCommands>, String>)
    ensures
        match res {
            Ok(cmds) => interpret_request_text(commands@) == Ok::<Seq<AdmCommandsView>, Seq<char>>(
                command_views(cmds@),
            ),
            Err(e) => interpret_request_text(commands@) == Err::<Seq<AdmCommandsView>, Seq<char>>(
                e@,
            ),
        },
{
    let comm_iter = split_text(commands.as_str(), '|');
    let ghost segs = comm_iter.deep_view();
    let mut commands_to_parse: Vec<AdmCommands> = Vec::new();
    let n = comm_iter.len();
    let mut i: usize = 0;
    assert(segs.take(0) =~= Seq::<Seq<char>>::empty());
    assert(command_views(commands_to_parse@) =~= Seq::<AdmCommandsView>::empty());
    while i < n
        invariant
            n == comm_iter@.len(),
            segs == comm_iter.deep_view(),
            segs == split_on(commands@, '|'),
            i <= n,
            interpret_pieces(segs.take(i as int)) == Ok::<Seq<AdmCommandsView>, Seq<char>>(
                command_views(commands_to_parse@),
            ),
        decreases n - i,
    {
        let raw = &comm_iter[i];
        let ghost before = commands_to_parse@;
        assert(segs.take(i + 1).drop_last() =~= segs.take(i as int));
        assert(segs.take(i + 1).last() == raw@);
        let trimmed = trim_text(raw.as_str());
        if !trimmed.as_str().is_empty() {
            match split_once_text(raw.as_str(), ':') {
                None => {
                    let mut msg = "Malformed command missing colon: ".to_owned();
                    msg.append(raw.as_str());
                    proof {
                        lemma_error_persists(segs, i + 1, msg@);
                    }
                    return Err(msg);
                },
                Some((name, args_str)) => {
                    let command = trim_text(name.as_str());
                    let args = parse_quoted_args(args_str.as_str());
                    let cmd = AdmCommands::from((command, args));
                    commands_to_parse.push(cmd);
                    assert(command_views(commands_to_parse@) =~= command_views(before).push(
                        cmd@,
                    ));
                },
            }
        }
        i = i + 1;
    }
    assert(segs.take(n as int) =~= segs);
    Ok(commands_to_parse)
}

} // verus!
