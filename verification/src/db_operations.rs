//! What the admin commands and the quote service decide: which password
//! admits a request, what each command changes, which quote is served, and
//! under which date a new quote is filed.
//!
//! The quote store and the process environment stay outside the library:
//! a command's decision is an [`Effect`] for the caller to carry out.

use vstd::prelude::*;
use vstd::string::*;
use chrono::Datelike;
use crate::adm_commands::{command_of, command_views, AdmCommands, AdmCommandsView};
use crate::numbers::{decimal, decimal_text, parse_i32, parse_i32_spec, signed_decimal, signed_decimal_text};

verus! {

/// A quote and its author.
#[derive(Debug)]
pub struct Quote {
    pub quote: String,
    pub author: String,
}

/// Something that a command asks the server to do outside the library.
#[derive(Debug)]
pub enum Effect {
    /// File a new quote.
    StoreQuote(Quote),
    /// Set these environment variables (name, value), in order.
    SetEnv(Vec<(String, String)>),
}

/// What running one command comes to.
#[derive(Debug)]
pub enum CommandStep {
    /// Nothing to do; go on with the next command.
    Nothing,
    /// Carry out this effect; stop with its error if it fails.
    Perform(Effect),
    /// Stop here with this error.
    Stop(String),
}

/// An [`Effect`] as a mathematical value.
pub enum EffectView {
    StoreQuote { quote: Seq<char>, author: Seq<char> },
    SetEnv(Seq<(Seq<char>, Seq<char>)>),
}

/// A [`CommandStep`] as a mathematical value.
pub enum CommandStepView {
    Nothing,
    Perform(EffectView),
    Stop(Seq<char>),
}

impl View for Effect {
    type V = EffectView;

    open spec fn view(&self) -> EffectView {
        match self {
            Effect::StoreQuote(q) => EffectView::StoreQuote { quote: q.quote@, author: q.author@ },
            Effect::SetEnv(vars) => EffectView::SetEnv(vars.deep_view()),
        }
    }
}

impl View for CommandStep {
    type V = CommandStepView;

    open spec fn view(&self) -> CommandStepView {
        match self {
            CommandStep::Nothing => CommandStepView::Nothing,
            CommandStep::Perform(e) => CommandStepView::Perform(e@),
            CommandStep::Stop(msg) => CommandStepView::Stop(msg@),
        }
    }
}

/// `cmds` holds a password command whose first argument is `pw`.
pub open spec fn has_valid_password_spec(cmds: Seq<AdmCommandsView>, pw: Seq<char>) -> bool {
    exists|i: int|
        0 <= i < cmds.len() && (#[trigger] cmds[i] matches AdmCommandsView::Password(args)
            && args.len() > 0 && args[0] == pw)
}

/// Whether the commands hold a password command whose first argument is the
/// configured password.
pub fn has_valid_password(commands: &Vec<AdmCommands>, conf_pw: &str) -> (b: bool)
    ensures
        b == has_valid_password_spec(command_views(commands@), conf_pw@),
{
    let ghost views = command_views(commands@);
    let pw = conf_pw.to_owned();
    let n = commands.len();
    let mut i: usize = 0;
    while i < n
        invariant
            n == commands@.len(),
            views == command_views(commands@),
            pw@ == conf_pw@,
            i <= n,
            forall|j: int|
                0 <= j < i ==> !(#[trigger] views[j] matches AdmCommandsView::Password(args)
                    && args.len() > 0 && args[0] == conf_pw@),
        decreases n - i,
    {
        assert(views[i as int] == commands@[i as int]@);
        match &commands[i] {
            AdmCommands::Password(pw_args) => {
                if pw_args.len() > 0 && pw_args[0].eq(&pw) {
                    return true;
                }
            },
            _ => {},
        }
        i = i + 1;
    }
    false
}

/// A request that holds a password command whose first argument is the
/// configured password is admitted, wherever that command stands.
pub proof fn law_password_command_admits(
    cmds: Seq<(Seq<char>, Seq<Seq<char>>)>,
    pw: Seq<char>,
    i: int,
)
    requires
        0 <= i < cmds.len(),
        cmds[i].0 == "pw"@,
        cmds[i].1.len() > 0,
        cmds[i].1[0] == pw,
    ensures
        has_valid_password_spec(
            cmds.map_values(|c: (Seq<char>, Seq<Seq<char>>)| command_of(c.0, c.1)),
            pw,
        ),
{
    let views = cmds.map_values(|c: (Seq<char>, Seq<Seq<char>>)| command_of(c.0, c.1));
    assert(views[i] == command_of(cmds[i].0, cmds[i].1));
}

/// The error of a request that no password admits.
pub open spec fn invalid_password_message() -> Seq<char> {
    "Error: invalid password."@
}

/// Admits the commands if one of them is a password command whose first
/// argument is the configured password, and refuses them otherwise.
pub fn authorize(commands: &Vec<AdmCommands>, conf_pw: &str) -> (res: Result<(), String>)
    ensures
        res is Ok <==> has_valid_password_spec(
            command_views(commands@),
            conf_pw@,
        ),
        res matches Err(e) ==> e@ == invalid_password_message(),
{
    if has_valid_password(commands, conf_pw) {
        Ok(())
    } else {
        Err("Error: invalid password.".to_owned())
    }
}

/// The error of an `addquote` command without exactly two arguments.
pub open spec fn quote_args_message() -> Seq<char> {
    "Incorrect args for quote."@
}

/// The quote that an `addquote` command with arguments `args` files: its two
/// arguments, quote first; any other number of arguments is an error.
pub fn add_quote(args: &Vec<String>) -> (res: Result<Quote, String>)
    ensures
        match res {
            Ok(q) => args@.len() == 2 && q.quote@ == args@[0]@ && q.author@ == args@[1]@,
            Err(e) => args@.len() != 2 && e@ == quote_args_message(),
        },
{
    if args.len() != 2 {
        return Err("Incorrect args for quote.".to_owned());
    }
    Ok(Quote { quote: args[0].clone(), author: args[1].clone() })
}

/// A setting command has the arguments that it reads: two for `changedef`,
/// one for the others.
pub open spec fn change_args_suffice(c: AdmCommandsView) -> bool {
    match c {
        AdmCommandsView::ChangeDefault(a) => a.len() >= 2,
        AdmCommandsView::ChangeIP(a) => a.len() >= 1,
        AdmCommandsView::ChangeMaxReq(a) => a.len() >= 1,
        AdmCommandsView::ChangePassword(a) => a.len() >= 1,
        AdmCommandsView::ChangePool(a) => a.len() >= 1,
        _ => true,
    }
}

/// The environment variables (name, value) that a command sets, in order.
pub open spec fn env_changes(c: AdmCommandsView) -> Seq<(Seq<char>, Seq<char>)> {
    match c {
        AdmCommandsView::ChangeDefault(a) => seq![
            ("DEFAULT_QOTD"@, a[0]),
            ("DEFAULT_QOTD_AUTH"@, a[1]),
        ],
        AdmCommandsView::ChangeIP(a) => seq![("SERVER_IP"@, a[0])],
        AdmCommandsView::ChangeMaxReq(a) => seq![("MAX_REQS_PER_HOUR"@, a[0])],
        AdmCommandsView::ChangePassword(a) => seq![("ADM_PW"@, a[0])],
        AdmCommandsView::ChangePool(a) => seq![("POOL"@, a[0])],
        _ => seq![],
    }
}

/// The pair (name, value) of strings.
fn var_pair(name: &str, value: &String) -> (p: (String, String))
    ensures
        p.0@ == name@,
        p.1@ == value@,
{
    (name.to_owned(), value.clone())
}

/// The environment variables that a setting command changes: the default
/// quote and its author, the server address, the request limit, the admin
/// password or the thread pool size. Other commands change none.
pub fn change_env_var(command: &AdmCommands) -> (vars: Vec<(String, String)>)
    requires
        change_args_suffice(command@),
    ensures
        vars.deep_view() == env_changes(command@),
{
    let mut vars: Vec<(String, String)> = Vec::new();
    match command {
        AdmCommands::ChangeDefault(new_quote) => {
            vars.push(var_pair("DEFAULT_QOTD", &new_quote[0]));
            vars.push(var_pair("DEFAULT_QOTD_AUTH", &new_quote[1]));
        },
        AdmCommands::ChangeIP(ip) => {
            vars.push(var_pair("SERVER_IP", &ip[0]));
        },
        AdmCommands::ChangeMaxReq(reqnum) => {
            vars.push(var_pair("MAX_REQS_PER_HOUR", &reqnum[0]));
        },
        AdmCommands::ChangePassword(newpw) => {
            vars.push(var_pair("ADM_PW", &newpw[0]));
        },
        AdmCommands::ChangePool(poolval) => {
            vars.push(var_pair("POOL", &poolval[0]));
        },
        _ => {},
    }
    assert(vars.deep_view() =~= env_changes(command@));
    vars
}

/// The error of a command that the server does not know.
pub open spec fn unknown_command_message() -> Seq<char> {
    "Error: unknown command"@
}

/// What running the command `c` comes to, once the request is admitted.
pub open spec fn step_of(c: AdmCommandsView) -> CommandStepView {
    match c {
        AdmCommandsView::Password(_) => CommandStepView::Nothing,
        AdmCommandsView::AddQuote(a) => if a.len() == 2 {
            CommandStepView::Perform(EffectView::StoreQuote { quote: a[0], author: a[1] })
        } else {
            CommandStepView::Stop(quote_args_message())
        },
        AdmCommandsView::Unknown { .. } => CommandStepView::Stop(unknown_command_message()),
        _ => CommandStepView::Perform(EffectView::SetEnv(env_changes(c))),
    }
}

/// What running one command of an admitted request comes to: a password
/// command does nothing, `addquote` files a quote (or stops on a wrong
/// number of arguments), a setting command sets environment variables, and
/// an unknown command stops the request.
pub fn command_step(cmd: &AdmCommands) -> (step: CommandStep)
    requires
        change_args_suffice(cmd@),
    ensures
        step@ == step_of(cmd@),
{
    match cmd {
        AdmCommands::Password(_) => CommandStep::Nothing,
        AdmCommands::AddQuote(args) => match add_quote(args) {
            Ok(q) => CommandStep::Perform(Effect::StoreQuote(q)),
            Err(e) => CommandStep::Stop(e),
        },
        AdmCommands::Unknown { .. } => CommandStep::Stop("Error: unknown command".to_owned()),
        _ => CommandStep::Perform(Effect::SetEnv(change_env_var(cmd))),
    }
}

/// What the run of an admitted request does next.
#[derive(Debug)]
pub enum RunAction {
    /// Carry out this effect, then hand its outcome back to [`advance_run`].
    Perform(Effect),
    /// The run is over, with this outcome.
    Finish(Result<(), String>),
}

/// A [`RunAction`] as a mathematical value.
pub enum RunActionView {
    Perform(EffectView),
    Finish(Result<(), Seq<char>>),
}

impl View for RunAction {
    type V = RunActionView;

    open spec fn view(&self) -> RunActionView {
        match self {
            RunAction::Perform(e) => RunActionView::Perform(e@),
            RunAction::Finish(Ok(())) => RunActionView::Finish(Ok(())),
            RunAction::Finish(Err(msg)) => RunActionView::Finish(Err(msg@)),
        }
    }
}

/// Running the commands `cmds` from position `p` on, where every effect
/// succeeds: the effects carried out, in order, and the outcome. The run goes
/// through the commands in order and ends at the first that stops, with its
/// error; the commands before it have had their effects and none after it
/// runs. An effect that fails ends the run at once with its error, so the
/// effects carried out are then a prefix of these.
pub open spec fn planned_run(cmds: Seq<AdmCommandsView>, p: int) -> (
    Seq<EffectView>,
    Result<(), Seq<char>>,
)
    decreases cmds.len() - p,
{
    if p < 0 || p >= cmds.len() {
        (seq![], Ok(()))
    } else {
        match step_of(cmds[p]) {
            CommandStepView::Nothing => planned_run(cmds, p + 1),
            CommandStepView::Stop(e) => (seq![], Err(e)),
            CommandStepView::Perform(e) => {
                let rest = planned_run(cmds, p + 1);
                (seq![e] + rest.0, rest.1)
            },
        }
    }
}

/// Running a request with the configured password `pw`, where every effect
/// succeeds: nothing at all where no password command admits it, and
/// otherwise the run of all its commands.
pub open spec fn request_run(cmds: Seq<AdmCommandsView>, pw: Seq<char>) -> (
    Seq<EffectView>,
    Result<(), Seq<char>>,
) {
    if has_valid_password_spec(cmds, pw) {
        planned_run(cmds, 0)
    } else {
        (seq![], Err(invalid_password_message()))
    }
}

/// The first command at or after `p` that is not a password command (the
/// next one the run acts on) has the arguments it reads.
pub open spec fn run_ready(cmds: Seq<AdmCommandsView>, p: int) -> bool {
    forall|k: int|
        p <= k < cmds.len() && (forall|j: int| p <= j < k ==> cmds[j] is Password)
            ==> change_args_suffice(#[trigger] cmds[k])
}

/// Whether `c` is a password command.
fn is_password_command(c: &AdmCommands) -> (b: bool)
    ensures
        b == (c@ is Password),
{
    match c {
        AdmCommands::Password(_) => true,
        _ => false,
    }
}

/// Whether the next command that the run acts on from `from` has the
/// arguments it reads, so that [`advance_run`] may go on.
pub fn next_command_ready(commands: &Vec<AdmCommands>, from: usize) -> (b: bool)
    ensures
        b == run_ready(command_views(commands@), from as int),
{
    let ghost views = command_views(commands@);
    let n = commands.len();
    let mut i: usize = from;
    while i < n && is_password_command(&commands[i])
        invariant
            n == commands@.len(),
            views == command_views(commands@),
            from <= i,
            forall|j: int| from <= j < i ==> views[j] is Password,
        decreases n - i,
    {
        assert(views[i as int] == commands@[i as int]@);
        i = i + 1;
    }
    if i >= n {
        return true;
    }
    assert(views[i as int] == commands@[i as int]@);
    let ready = match &commands[i] {
        AdmCommands::ChangeDefault(a) => a.len() >= 2,
        AdmCommands::ChangeIP(a) => a.len() >= 1,
        AdmCommands::ChangeMaxReq(a) => a.len() >= 1,
        AdmCommands::ChangePassword(a) => a.len() >= 1,
        AdmCommands::ChangePool(a) => a.len() >= 1,
        _ => true,
    };
    proof {
        if ready {
            assert forall|k: int|
                from <= k < views.len() && (forall|j: int| from <= j < k ==> views[j] is Password)
                    implies change_args_suffice(#[trigger] views[k]) by {
                if k > i {
                    assert(!(views[i as int] is Password));
                }
            }
        } else {
            assert(!change_args_suffice(views[i as int]));
        }
    }
    ready
}

/// The next step of the run of an admitted request. `from` is the position
/// of the next command to look at and `last` the outcome of the effect
/// carried out last (`Ok` at the start). A failed effect ends the run with
/// its error; otherwise password commands are passed over and the next
/// command either gives an effect to carry out (and the position after it)
/// or ends the run.
pub fn advance_run(commands: &Vec<AdmCommands>, from: usize, last: Result<(), String>) -> (res: (
    RunAction,
    usize,
))
    requires
        from <= commands@.len(),
        last is Ok ==> run_ready(command_views(commands@), from as int),
    ensures
        last matches Err(e) ==> res.0@ == RunActionView::Finish(Err(e@)) && res.1 == from,
        last is Ok ==> match res.0@ {
            RunActionView::Perform(e) => from < res.1 <= commands@.len() && planned_run(
                command_views(commands@),
                from as int,
            ) == (seq![e] + planned_run(command_views(commands@), res.1 as int).0, planned_run(
                command_views(commands@),
                res.1 as int,
            ).1),
            RunActionView::Finish(r) => res.1 <= commands@.len() && planned_run(
                command_views(commands@),
                from as int,
            ) == (Seq::<EffectView>::empty(), r),
        },
{
    match last {
        Err(e) => {
            return (RunAction::Finish(Err(e)), from);
        },
        Ok(()) => {},
    }
    let ghost views = command_views(commands@);
    let n = commands.len();
    let mut i: usize = from;
    while i < n && is_password_command(&commands[i])
        invariant
            n == commands@.len(),
            views == command_views(commands@),
            from <= i <= n,
            forall|j: int| from <= j < i ==> views[j] is Password,
            planned_run(views, from as int) == planned_run(views, i as int),
        decreases n - i,
    {
        assert(views[i as int] == commands@[i as int]@);
        i = i + 1;
    }
    if i == n {
        return (RunAction::Finish(Ok(())), n);
    }
    assert(views[i as int] == commands@[i as int]@);
    assert(change_args_suffice(views[i as int]));
    match command_step(&commands[i]) {
        CommandStep::Nothing => (RunAction::Finish(Ok(())), i + 1),
        CommandStep::Stop(e) => (RunAction::Finish(Err(e)), i + 1),
        CommandStep::Perform(effect) => (RunAction::Perform(effect), i + 1),
    }
}

/// A setting command is one of `changedef`, `changeip`, `changepool`,
/// `changemaxreq` and `changepassword`.
pub open spec fn is_setting_command(c: AdmCommandsView) -> bool {
    ||| c is ChangeDefault
    ||| c is ChangeIP
    ||| c is ChangePool
    ||| c is ChangeMaxReq
    ||| c is ChangePassword
}

/// An admitted request holding one setting command with the arguments it
/// reads carries out exactly that command's assignments and ends well; no
/// setting command stops a run.
pub proof fn law_setting_command_runs(c: AdmCommandsView, pw: Seq<char>)
    requires
        is_setting_command(c),
        change_args_suffice(c),
    ensures
        step_of(c) == CommandStepView::Perform(EffectView::SetEnv(env_changes(c))),
        env_changes(c).len() > 0,
        request_run(seq![AdmCommandsView::Password(seq![pw]), c], pw) == (
            seq![EffectView::SetEnv(env_changes(c))],
            Ok::<(), Seq<char>>(()),
        ),
{
    let cmds = seq![AdmCommandsView::Password(seq![pw]), c];
    assert(cmds[0] matches AdmCommandsView::Password(a) && a.len() > 0 && a[0] == pw);
    assert(has_valid_password_spec(cmds, pw));
    assert(planned_run(cmds, 2) == (Seq::<EffectView>::empty(), Ok::<(), Seq<char>>(())));
    assert(planned_run(cmds, 1) == (
        seq![EffectView::SetEnv(env_changes(c))] + Seq::<EffectView>::empty(),
        Ok::<(), Seq<char>>(()),
    ));
    assert(seq![EffectView::SetEnv(env_changes(c))] + Seq::<EffectView>::empty() =~= seq![
        EffectView::SetEnv(env_changes(c)),
    ]);
}

/// What each setting command leaves in the environment: `changedef` the
/// default quote and its author, `changeip` the server address, `changepool`
/// the pool size, `changemaxreq` the request limit and `changepassword` the
/// admin password, each the command's argument in that order.
pub proof fn law_setting_values(env: Map<Seq<char>, Seq<char>>, a: Seq<Seq<char>>)
    ensures
        a.len() >= 2 ==> ({
            let e = apply_env(env, env_changes(AdmCommandsView::ChangeDefault(a)));
            e.contains_key("DEFAULT_QOTD"@) && e["DEFAULT_QOTD"@] == a[0] && e.contains_key(
                "DEFAULT_QOTD_AUTH"@,
            ) && e["DEFAULT_QOTD_AUTH"@] == a[1]
        }),
        a.len() >= 1 ==> apply_env(env, env_changes(AdmCommandsView::ChangeIP(a))) == env.insert(
            "SERVER_IP"@,
            a[0],
        ),
        a.len() >= 1 ==> apply_env(env, env_changes(AdmCommandsView::ChangePool(a))) == env.insert(
            "POOL"@,
            a[0],
        ),
        a.len() >= 1 ==> apply_env(env, env_changes(AdmCommandsView::ChangeMaxReq(a)))
            == env.insert("MAX_REQS_PER_HOUR"@, a[0]),
        a.len() >= 1 ==> apply_env(env, env_changes(AdmCommandsView::ChangePassword(a)))
            == env.insert("ADM_PW"@, a[0]),
{
    if a.len() >= 1 {
        lemma_apply_one(env, "SERVER_IP"@, a[0]);
        lemma_apply_one(env, "POOL"@, a[0]);
        lemma_apply_one(env, "MAX_REQS_PER_HOUR"@, a[0]);
        lemma_apply_one(env, "ADM_PW"@, a[0]);
    }
    if a.len() >= 2 {
        let ch = env_changes(AdmCommandsView::ChangeDefault(a));
        assert(ch.drop_last() =~= seq![("DEFAULT_QOTD"@, a[0])]);
        lemma_apply_one(env, "DEFAULT_QOTD"@, a[0]);
        assert(ch.last() == ("DEFAULT_QOTD_AUTH"@, a[1]));
        let e = apply_env(env, ch);
        assert(e == env.insert("DEFAULT_QOTD"@, a[0]).insert("DEFAULT_QOTD_AUTH"@, a[1]));
        reveal_strlit("DEFAULT_QOTD");
        reveal_strlit("DEFAULT_QOTD_AUTH");
        assert("DEFAULT_QOTD"@ != "DEFAULT_QOTD_AUTH"@) by {
            assert("DEFAULT_QOTD"@.len() != "DEFAULT_QOTD_AUTH"@.len());
        }
    }
}

proof fn lemma_apply_one(env: Map<Seq<char>, Seq<char>>, k: Seq<char>, v: Seq<char>)
    ensures
        apply_env(env, seq![(k, v)]) == env.insert(k, v),
{
    let ch = seq![(k, v)];
    assert(ch.drop_last() =~= Seq::<(Seq<char>, Seq<char>)>::empty());
    assert(apply_env(env, ch.drop_last()) == env);
    assert(ch.len() == 1);
    assert(ch.last() == (k, v));
    assert(apply_env(env, ch) == apply_env(env, ch.drop_last()).insert(ch.last().0, ch.last().1));
}

/// Only an unknown command stops a run with the unknown-command error.
pub proof fn law_only_unknown_commands_are_unknown(c: AdmCommandsView)
    ensures
        step_of(c) == CommandStepView::Stop(unknown_command_message()) <==> c is Unknown,
{
    reveal_strlit("Error: unknown command");
    reveal_strlit("Incorrect args for quote.");
    assert(unknown_command_message().len() != quote_args_message().len());
}

/// The environment after the assignments (name, value) `changes`, in order.
pub open spec fn apply_env(
    env: Map<Seq<char>, Seq<char>>,
    changes: Seq<(Seq<char>, Seq<char>)>,
) -> Map<Seq<char>, Seq<char>>
    decreases changes.len(),
{
    if changes.len() == 0 {
        env
    } else {
        apply_env(env, changes.drop_last()).insert(changes.last().0, changes.last().1)
    }
}

proof fn lemma_apply_env_union(env: Map<Seq<char>, Seq<char>>, changes: Seq<(Seq<char>, Seq<char>)>)
    ensures
        apply_env(env, changes) == env.union_prefer_right(apply_env(Map::empty(), changes)),
    decreases changes.len(),
{
    if changes.len() == 0 {
        assert(env.union_prefer_right(Map::empty()) =~= env);
    } else {
        lemma_apply_env_union(env, changes.drop_last());
        assert(apply_env(env, changes) =~= env.union_prefer_right(
            apply_env(Map::empty(), changes),
        ));
    }
}

/// Carrying out the same assignments twice leaves the environment as
/// carrying them out once does; so a setting command repeated changes
/// nothing more.
pub proof fn law_env_changes_idempotent(env: Map<Seq<char>, Seq<char>>, c: AdmCommandsView)
    ensures
        apply_env(apply_env(env, env_changes(c)), env_changes(c)) == apply_env(
            env,
            env_changes(c),
        ),
{
    let ch = env_changes(c);
    let w = apply_env(Map::empty(), ch);
    lemma_apply_env_union(env, ch);
    lemma_apply_env_union(apply_env(env, ch), ch);
    assert(env.union_prefer_right(w).union_prefer_right(w) =~= env.union_prefer_right(w));
}

/// After `changepassword` with first argument `q`, the password is `q`: a
/// request holding `pw` with `q` is admitted and runs, and one holding only a
/// different old password `p` is refused.
pub proof fn law_new_password_takes_effect(
    env: Map<Seq<char>, Seq<char>>,
    args: Seq<Seq<char>>,
    p: Seq<char>,
)
    requires
        args.len() >= 1,
        p != args[0],
    ensures
        ({
            let env2 = apply_env(env, env_changes(AdmCommandsView::ChangePassword(args)));
            &&& env2.contains_key("ADM_PW"@)
            &&& env2["ADM_PW"@] == args[0]
            &&& request_run(seq![AdmCommandsView::Password(seq![args[0]])], env2["ADM_PW"@]) == (
                Seq::<EffectView>::empty(),
                Ok::<(), Seq<char>>(()),
            )
            &&& request_run(seq![AdmCommandsView::Password(seq![p])], env2["ADM_PW"@]) == (
                Seq::<EffectView>::empty(),
                Err::<(), Seq<char>>(invalid_password_message()),
            )
        }),
{
    let changes = env_changes(AdmCommandsView::ChangePassword(args));
    assert(changes.drop_last() =~= Seq::<(Seq<char>, Seq<char>)>::empty());
    let env2 = apply_env(env, changes);
    assert(changes.len() == 1);
    assert(apply_env(env, changes.drop_last()) == env);
    assert(changes.last() == ("ADM_PW"@, args[0]));
    assert(env2 == env.insert("ADM_PW"@, args[0]));
    let ok = seq![AdmCommandsView::Password(seq![args[0]])];
    assert(ok[0] matches AdmCommandsView::Password(a) && a.len() > 0 && a[0] == args[0]);
    assert(has_valid_password_spec(ok, args[0]));
    assert(planned_run(ok, 1) == (Seq::<EffectView>::empty(), Ok::<(), Seq<char>>(())));
    let old = seq![AdmCommandsView::Password(seq![p])];
    assert(!has_valid_password_spec(old, args[0])) by {
        if has_valid_password_spec(old, args[0]) {
            let i = choose|i: int|
                0 <= i < old.len() && (#[trigger] old[i] matches AdmCommandsView::Password(a)
                    && a.len() > 0 && a[0] == args[0]);
            assert(i == 0);
            assert(seq![p][0] == p);
        }
    }
}

/// The latest of the dates `dates`, where there is one.
pub open spec fn latest_of(dates: Seq<i32>) -> Option<i32>
    decreases dates.len(),
{
    if dates.len() == 0 {
        None
    } else {
        match latest_of(dates.drop_last()) {
            None => Some(dates.last()),
            Some(m) => Some(
                if dates.last() > m {
                    dates.last()
                } else {
                    m
                },
            ),
        }
    }
}

proof fn lemma_latest_of_bounds(dates: Seq<i32>)
    ensures
        latest_of(dates) matches Some(m) ==> forall|i: int| 0 <= i < dates.len() ==> dates[i] <= m,
        latest_of(dates) is None <==> dates.len() == 0,
    decreases dates.len(),
{
    if dates.len() > 0 {
        lemma_latest_of_bounds(dates.drop_last());
        assert forall|i: int| 0 <= i < dates.len() - 1 implies dates[i] == dates.drop_last()[i] by {}
    }
}

/// A quote is filed under a date later than every date in the store, so
/// the dates in the store stay pairwise different.
pub proof fn law_filed_date_is_new(dates: Seq<i32>, today: i32)
    requires
        latest_of(dates) matches Some(m) ==> m < i32::MAX,
    ensures
        forall|i: int|
            0 <= i < dates.len() ==> dates[i] < next_quote_date_spec(latest_of(dates), today),
        (forall|i: int, j: int| 0 <= i < j < dates.len() ==> dates[i] != dates[j]) ==> ({
            let d2 = dates.push(next_quote_date_spec(latest_of(dates), today) as i32);
            forall|i: int, j: int| 0 <= i < j < d2.len() ==> d2[i] != d2[j]
        }),
{
    lemma_latest_of_bounds(dates);
}

/// Where the store holds a latest date, a new quote is filed on the day
/// after it, whatever day today is.
pub proof fn law_filing_follows_latest(d: i32, today: i32)
    requires
        d < i32::MAX,
    ensures
        next_quote_date_spec(Some(d), today) == d + 1,
{
}

/// Quotes filed one after the other get consecutive dates, whatever the
/// days on which they are filed: the second is filed on the day after the
/// first.
pub proof fn law_consecutive_filings(dates: Seq<i32>, today1: i32, today2: i32)
    requires
        latest_of(dates) matches Some(m) ==> m < i32::MAX,
        next_quote_date_spec(latest_of(dates), today1) < i32::MAX,
    ensures
        ({
            let first = next_quote_date_spec(latest_of(dates), today1);
            let after = dates.push(first as i32);
            &&& latest_of(after) == Some(first as i32)
            &&& next_quote_date_spec(latest_of(after), today2) == first + 1
        }),
{
    let first = next_quote_date_spec(latest_of(dates), today1);
    let after = dates.push(first as i32);
    assert(after.drop_last() =~= dates);
    lemma_latest_of_bounds(dates);
}

/// The quotes (text, author) of the store rows (text, author, date) `store`
/// that are filed under `date`, in order.
pub open spec fn quotes_on(store: Seq<(Seq<char>, Seq<char>, i32)>, date: int) -> Seq<
    (Seq<char>, Seq<char>),
>
    decreases store.len(),
{
    if store.len() == 0 {
        seq![]
    } else {
        let r = store.last();
        let prev = quotes_on(store.drop_last(), date);
        if r.2 == date {
            prev.push((r.0, r.1))
        } else {
            prev
        }
    }
}

/// The dates of the store rows `store`, in order.
pub open spec fn dates_of(store: Seq<(Seq<char>, Seq<char>, i32)>) -> Seq<i32> {
    store.map_values(|r: (Seq<char>, Seq<char>, i32)| r.2)
}

proof fn lemma_quotes_on_none(store: Seq<(Seq<char>, Seq<char>, i32)>, date: int)
    requires
        forall|i: int| 0 <= i < store.len() ==> store[i].2 < date,
    ensures
        quotes_on(store, date) == Seq::<(Seq<char>, Seq<char>)>::empty(),
    decreases store.len(),
{
    if store.len() > 0 {
        let prev = store.drop_last();
        assert forall|i: int| 0 <= i < prev.len() implies prev[i].2 < date by {
            assert(prev[i] == store[i]);
        }
        lemma_quotes_on_none(prev, date);
    }
}

/// A quote filed into the store, whatever the store holds, is the quote
/// served on the date it is filed under: no other quote is filed under that
/// date. Where the store is empty, that date is today.
pub proof fn law_filed_quote_is_served(
    store: Seq<(Seq<char>, Seq<char>, i32)>,
    quote: Seq<char>,
    author: Seq<char>,
    today: i32,
    default: (Seq<char>, Seq<char>),
)
    requires
        latest_of(dates_of(store)) matches Some(m) ==> m < i32::MAX,
    ensures
        ({
            let date = next_quote_date_spec(latest_of(dates_of(store)), today);
            let filed = store.push((quote, author, date as i32));
            &&& quotes_on(filed, date) == seq![(quote, author)]
            &&& pick_quote_spec(Some(quotes_on(filed, date)), default) == (quote, author)
            &&& store.len() == 0 ==> date == today
        }),
{
    let dates = dates_of(store);
    let date = next_quote_date_spec(latest_of(dates), today);
    law_filed_date_is_new(dates, today);
    lemma_latest_of_bounds(dates);
    assert forall|i: int| 0 <= i < store.len() implies store[i].2 < date by {
        assert(dates[i] == store[i].2);
    }
    lemma_quotes_on_none(store, date);
    let filed = store.push((quote, author, date as i32));
    assert(filed.drop_last() =~= store);
    assert(filed.last() == (quote, author, date as i32));
    assert(quotes_on(filed, date) =~= seq![(quote, author)]);
}

/// The date under which a new quote is filed: the day after the latest date
/// in the store, or today where the store holds none.
pub open spec fn next_quote_date_spec(latest: Option<i32>, today: i32) -> int {
    match latest {
        Some(d) => d + 1,
        None => today as int,
    }
}

/// The date under which a new quote is filed: the day after the latest date
/// in the store, or today where the store holds none.
pub fn next_quote_date(latest: Option<i32>, today: i32) -> (date: i32)
    requires
        latest matches Some(d) ==> d < i32::MAX,
    ensures
        date == next_quote_date_spec(latest, today),
{
    match latest {
        Some(d) => d + 1,
        None => today,
    }
}

/// The quote served when nothing else can be: its text.
pub open spec fn fallback_quote_text() -> Seq<char> {
    "The server encountered an error, but errors are just opportunities in disguise."@
}

/// The quote served when nothing else can be: its author.
pub open spec fn fallback_author() -> Seq<char> {
    "Error Handler"@
}

/// The quote served when nothing else can be.
pub fn fallback_quote() -> (q: Quote)
    ensures
        q.quote@ == fallback_quote_text(),
        q.author@ == fallback_author(),
{
    Quote {
        quote: "The server encountered an error, but errors are just opportunities in disguise.".to_owned(),
        author: "Error Handler".to_owned(),
    }
}

/// The default quote: the configured text and author, each replaced by the
/// fallback where it is not configured.
pub fn default_quote(quote: Option<String>, author: Option<String>) -> (q: Quote)
    ensures
        q.quote@ == match quote {
            Some(t) => t@,
            None => fallback_quote_text(),
        },
        q.author@ == match author {
            Some(a) => a@,
            None => fallback_author(),
        },
{
    let fallback = fallback_quote();
    Quote {
        quote: match quote {
            Some(t) => t,
            None => fallback.quote,
        },
        author: match author {
            Some(a) => a,
            None => fallback.author,
        },
    }
}

/// The quote (text, author) served today: the first of today's quotes that
/// the store gave, or the default quote where it gave none or could not be
/// read (`None`).
pub open spec fn pick_quote_spec(
    todays: Option<Seq<(Seq<char>, Seq<char>)>>,
    default: (Seq<char>, Seq<char>),
) -> (Seq<char>, Seq<char>) {
    match todays {
        Some(rows) => if rows.len() > 0 {
            rows[0]
        } else {
            default
        },
        None => default,
    }
}

/// The quote served today: the first of today's quotes (quote, author) that
/// the store gave, or the default quote where it gave none or could not be
/// read (`None`).
pub fn pick_quote(todays: Option<Vec<(String, String)>>, default: Quote) -> (q: Quote)
    ensures
        (q.quote@, q.author@) == pick_quote_spec(
            match todays {
                Some(rows) => Some(rows.deep_view()),
                None => None,
            },
            (default.quote@, default.author@),
        ),
        match todays {
            Some(rows) => if rows@.len() > 0 {
                q.quote@ == rows@[0].0@ && q.author@ == rows@[0].1@
            } else {
                q == default
            },
            None => q == default,
        },
{
    match todays {
        Some(rows) => {
            if rows.len() > 0 {
                Quote { quote: rows[0].0.clone(), author: rows[0].1.clone() }
            } else {
                default
            }
        },
        None => default,
    }
}

/// The text sent to a client: the quote, ` - `, and its author.
pub fn format_quote(q: &Quote) -> (t: String)
    ensures
        t@ == q.quote@ + " - "@ + q.author@,
{
    let mut t = q.quote.clone();
    t.append(" - ");
    t.append(q.author.as_str());
    t
}

/// The query for the quotes filed under `date`.
pub fn todays_quote_query(date: i32) -> (sql: String)
    ensures
        sql@ == "select quote, author from qotd where returned_on = "@ + signed_decimal(
            date as int,
        ),
{
    let mut sql = "select quote, author from qotd where returned_on = ".to_owned();
    let digits = signed_decimal_text(date as i64);
    sql.append(digits.as_str());
    sql
}

/// The text of a date as the store keys it: year, month and day in decimal,
/// written one after the other without padding (2024-03-05 is `202435`).
pub open spec fn date_text(year: i32, month: u32, day: u32) -> Seq<char> {
    signed_decimal(year as int) + decimal(month as nat) + decimal(day as nat)
}

/// The key of a date in the store: its date text read as an `i32`, or `None`
/// where that text does not fit in an `i32`.
pub fn date_code(year: i32, month: u32, day: u32) -> (code: Option<i32>)
    ensures
        code == parse_i32_spec(date_text(year, month, day)),
{
    let mut text = signed_decimal_text(year as i64);
    let m = decimal_text(month as u64);
    let d = decimal_text(day as u64);
    text.append(m.as_str());
    text.append(d.as_str());
    parse_i32(text.as_str())
}

/// Today's date (year, month from 1 to 12, day of the month from 1 to 31) by
/// the local clock, from `chrono::Local::now` and the `Datelike` methods
/// `year`, `month` and `day`. Only the ranges that chrono documents for month
/// and day are stated: the date itself depends on the clock.
#[verifier::external_body]
fn local_date_now() -> (date: (i32, u32, u32))
    ensures
        1 <= date.1 <= 12,
        1 <= date.2 <= 31,
{
    let now = chrono::Local::now();
    (now.year(), now.month(), now.day())
}

/// Today's date (year, month, day) by the local clock; its key in the store
/// is [`date_code`] of it.
pub fn today() -> (date: (i32, u32, u32))
    ensures
        1 <= date.1 <= 12,
        1 <= date.2 <= 31,
{
    local_date_now()
}

} // verus!
