//! Starting SAP GUI for Windows through `sapshcut.exe` and writing `.sap`
//! shortcut files.
//!
//! This module decides the argument list and the shortcut text; finding and
//! starting the executable is left to the application shell.

use vstd::prelude::*;
use crate::model::SapLaunch;
use crate::text::{self, trim, all_digits};

verus! {

/// `-pw=<password>` on the command line (visible to other local processes).
pub const PASSWORD_MODE_COMMAND_LINE: &'static str = "commandLine";

/// Clipboard payload plus an SAP GUI login prompt (default).
pub const PASSWORD_MODE_CLIPBOARD: &'static str = "clipboard";

/// SAP Logon shows the client as three digits; `1` becomes `001`.
pub open spec fn normalize_client_spec(value: Seq<char>) -> Seq<char> {
    let t = trim(value);
    if t.len() == 0 {
        t
    } else if all_digits(t) && t.len() < 3 {
        Seq::new((3 - t.len()) as nat, |i: int| '0') + t
    } else {
        t
    }
}

pub fn normalize_client(value: &str) -> (out: String)
    ensures
        out@ == normalize_client_spec(value@),
{
    let t = text::trim_str(value);
    if t.len() == 0 {
        return text::string_of(&t);
    }
    if text::is_all_digits(&t) && t.len() < 3 {
        let mut out: Vec<char> = Vec::new();
        let pad = 3 - t.len();
        let mut i: usize = 0;
        while i < pad
            invariant
                i <= pad,
                out@ == Seq::new(i as nat, |k: int| '0'),
            decreases pad - i,
        {
            out.push('0');
            i += 1;
            assert(out@ =~= Seq::new(i as nat, |k: int| '0'));
        }
        text::push_all(&mut out, &t);
        return text::string_of(&out);
    }
    text::string_of(&t)
}

/// `prefix + value`, or nothing when `value` is empty.
pub open spec fn opt_arg(prefix: Seq<char>, value: Seq<char>) -> Seq<Seq<char>> {
    if value.len() == 0 {
        seq![]
    } else {
        seq![prefix + value]
    }
}

/// The `sapshcut.exe` argument list, in order: system, client, connection
/// string, user, language, password (only when asked for), `-maxgui`, start
/// transaction.
pub open spec fn arguments_spec(
    launch: SapLaunch,
    username: Seq<char>,
    password: Seq<char>,
    include_password: bool,
) -> Seq<Seq<char>> {
    opt_arg("-system="@, trim(launch.system_id@)) + opt_arg(
        "-client="@,
        normalize_client_spec(launch.client@),
    ) + opt_arg("-guiparm="@, trim(launch.guiparm@)) + opt_arg("-user="@, trim(username))
        + opt_arg("-language="@, trim(launch.language@)) + (if include_password && password.len()
        > 0 {
        seq!["-pw="@ + password]
    } else {
        seq![]
    }) + (if launch.maximize {
        seq!["-maxgui"@]
    } else {
        seq![]
    }) + (if trim(launch.transaction@).len() == 0 {
        seq![]
    } else {
        seq!["-type=Transaction"@, "-command="@ + trim(launch.transaction@)]
    })
}

pub open spec fn views(v: Seq<String>) -> Seq<Seq<char>> {
    v.map_values(|s: String| s@)
}

fn push_arg(args: &mut Vec<String>, prefix: &str, value: &Vec<char>)
    ensures
        views(final(args)@) == views(old(args)@) + opt_arg(prefix@, value@),
{
    if value.len() > 0 {
        let mut a = text::chars_of(prefix);
        text::push_all(&mut a, value);
        args.push(text::string_of(&a));
        assert(views(final(args)@) =~= views(old(args)@) + opt_arg(prefix@, value@));
    } else {
        assert(views(final(args)@) =~= views(old(args)@) + opt_arg(prefix@, value@));
    }
}

fn push_plain(args: &mut Vec<String>, value: &str)
    ensures
        views(final(args)@) == views(old(args)@) + seq![value@],
{
    let a = text::chars_of(value);
    args.push(text::string_of(&a));
    assert(views(final(args)@) =~= views(old(args)@) + seq![value@]);
}

/// Builds the `sapshcut.exe` argument list. The system ID is always handed
/// over (a logon-group connection needs it); `include_password` decides
/// whether `-pw=` appears at all.
pub fn build_arguments(
    launch: &SapLaunch,
    username: &str,
    password: &str,
    include_password: bool,
) -> (args: Vec<String>)
    ensures
        views(args@) == arguments_spec(*launch, username@, password@, include_password),
{
    let mut args: Vec<String> = Vec::new();
    let system_id = text::trim_str(launch.system_id.as_str());
    push_arg(&mut args, "-system=", &system_id);
    let client = normalize_client(launch.client.as_str());
    let client_chars = text::chars_of(client.as_str());
    push_arg(&mut args, "-client=", &client_chars);
    let guiparm = text::trim_str(launch.guiparm.as_str());
    push_arg(&mut args, "-guiparm=", &guiparm);
    let user = text::trim_str(username);
    push_arg(&mut args, "-user=", &user);
    let language = text::trim_str(launch.language.as_str());
    push_arg(&mut args, "-language=", &language);
    let pw = text::chars_of(password);
    if include_password && pw.len() > 0 {
        push_arg(&mut args, "-pw=", &pw);
    }
    if launch.maximize {
        push_plain(&mut args, "-maxgui");
    }
    let transaction = text::trim_str(launch.transaction.as_str());
    if transaction.len() > 0 {
        push_plain(&mut args, "-type=Transaction");
        push_arg(&mut args, "-command=", &transaction);
    }
    assert(views(args@) =~= arguments_spec(*launch, username@, password@, include_password));
    args
}

/// Replaces every `-pw=…` argument with `-pw=***` for display.
pub open spec fn mask_spec(arg: Seq<char>) -> Seq<char> {
    if text::starts_with(arg, "-pw="@) {
        "-pw=***"@
    } else {
        arg
    }
}

pub fn mask_password(arguments: &Vec<String>) -> (out: Vec<String>)
    ensures
        out.len() == arguments.len(),
        forall|i: int| 0 <= i < out.len() ==> (#[trigger] out[i])@ == mask_spec(arguments[i]@),
{
    let mut out: Vec<String> = Vec::new();
    let mut i: usize = 0;
    while i < arguments.len()
        invariant
            i <= arguments.len(),
            out.len() == i,
            forall|k: int| 0 <= k < i ==> (#[trigger] out[k])@ == mask_spec(arguments[k]@),
        decreases arguments.len() - i,
    {
        let a = text::chars_of_string(&arguments[i]);
        if text::starts_with_str(&a, "-pw=") {
            let m = text::chars_of("-pw=***");
            out.push(text::string_of(&m));
        } else {
            out.push(text::string_of(&a));
        }
        i += 1;
    }
    out
}

/// One line of the shortcut file followed by `\r\n`.
pub open spec fn line(s: Seq<char>) -> Seq<char> {
    s + "\r\n"@
}

pub open spec fn opt_line(prefix: Seq<char>, value: Seq<char>) -> Seq<char> {
    if value.len() == 0 {
        seq![]
    } else {
        line(prefix + value)
    }
}

/// The `.sap` shortcut text: `[System]` with description, system ID and
/// client (no connection string, no password), `[User]` when there is a user
/// or language, `[Function]` with the start transaction (`S000` by default),
/// `[Configuration]` with the work directory when given, and `[Options]`.
pub open spec fn shortcut_spec(
    launch: SapLaunch,
    username: Seq<char>,
    description: Seq<char>,
    work_dir: Seq<char>,
) -> Seq<char> {
    let system_id = trim(launch.system_id@);
    let desc = if trim(description).len() == 0 {
        system_id
    } else {
        trim(description)
    };
    let user = trim(username);
    let language = trim(launch.language@);
    let command = if trim(launch.transaction@).len() == 0 {
        "S000"@
    } else {
        trim(launch.transaction@)
    };
    let work = trim(work_dir);
    line("[System]"@) + opt_line("Description="@, desc) + opt_line("SystemID="@, system_id)
        + opt_line("Client="@, normalize_client_spec(launch.client@)) + (if user.len() == 0
        && language.len() == 0 {
        seq![]
    } else {
        line("[User]"@) + opt_line("Name="@, user) + opt_line("Language="@, language)
    }) + line("[Function]"@) + line("Title=SAP"@) + line("Command="@ + command) + (if work.len()
        == 0 {
        seq![]
    } else {
        line("[Configuration]"@) + line("WorkDir="@ + work)
    }) + line("[Options]"@) + line("Reuse=1"@)
}

fn push_line(out: &mut Vec<char>, prefix: &str, value: &Vec<char>)
    ensures
        final(out)@ == old(out)@ + line(prefix@ + value@),
{
    text::push_str(out, prefix);
    text::push_all(out, value);
    text::push_str(out, "\r\n");
    assert(final(out)@ =~= old(out)@ + line(prefix@ + value@));
}

fn push_opt_line(out: &mut Vec<char>, prefix: &str, value: &Vec<char>)
    ensures
        final(out)@ == old(out)@ + opt_line(prefix@, value@),
{
    if value.len() > 0 {
        push_line(out, prefix, value);
    } else {
        assert(final(out)@ =~= old(out)@ + opt_line(prefix@, value@));
    }
}

#[verifier::spinoff_prover]
#[verifier::rlimit(40)]
pub fn shortcut_text(
    launch: &SapLaunch,
    username: &str,
    description: &str,
    work_dir: &str,
) -> (out: String)
    ensures
        out@ == shortcut_spec(*launch, username@, description@, work_dir@),
{
    let empty: Vec<char> = Vec::new();
    let system_id = text::trim_str(launch.system_id.as_str());
    let trimmed_description = text::trim_str(description);
    let desc = if trimmed_description.len() == 0 {
        system_id.clone()
    } else {
        trimmed_description
    };
    let mut lines: Vec<char> = Vec::new();
    push_line(&mut lines, "[System]", &empty);
    push_opt_line(&mut lines, "Description=", &desc);
    push_opt_line(&mut lines, "SystemID=", &system_id);
    let client = normalize_client(launch.client.as_str());
    let client_chars = text::chars_of(client.as_str());
    push_opt_line(&mut lines, "Client=", &client_chars);
    let user = text::trim_str(username);
    let language = text::trim_str(launch.language.as_str());
    if user.len() > 0 || language.len() > 0 {
        push_line(&mut lines, "[User]", &empty);
        push_opt_line(&mut lines, "Name=", &user);
        push_opt_line(&mut lines, "Language=", &language);
    }
    push_line(&mut lines, "[Function]", &empty);
    push_line(&mut lines, "Title=SAP", &empty);
    let transaction = text::trim_str(launch.transaction.as_str());
    let command = if transaction.len() == 0 {
        text::chars_of("S000")
    } else {
        transaction
    };
    push_line(&mut lines, "Command=", &command);
    let work = text::trim_str(work_dir);
    if work.len() > 0 {
        push_line(&mut lines, "[Configuration]", &empty);
        push_line(&mut lines, "WorkDir=", &work);
    }
    push_line(&mut lines, "[Options]", &empty);
    push_line(&mut lines, "Reuse=1", &empty);
    proof {
        assert("[System]"@ + Seq::<char>::empty() =~= "[System]"@);
        assert("[User]"@ + Seq::<char>::empty() =~= "[User]"@);
        assert("[Function]"@ + Seq::<char>::empty() =~= "[Function]"@);
        assert("Title=SAP"@ + Seq::<char>::empty() =~= "Title=SAP"@);
        assert("[Configuration]"@ + Seq::<char>::empty() =~= "[Configuration]"@);
        assert("[Options]"@ + Seq::<char>::empty() =~= "[Options]"@);
        assert("Reuse=1"@ + Seq::<char>::empty() =~= "Reuse=1"@);
    }
    assert(lines@ =~= shortcut_spec(*launch, username@, description@, work_dir@));
    text::string_of(&lines)
}

proof fn lemma_prefix_not_pw(prefix: Seq<char>, value: Seq<char>)
    requires
        prefix.len() >= 2,
        prefix[0] == '-',
        prefix[1] != 'p',
    ensures
        !text::starts_with(prefix + value, "-pw="@),
{
    reveal_strlit("-pw=");
    assert((prefix + value)[1] == prefix[1]);
    if text::starts_with(prefix + value, "-pw="@) {
        assert((prefix + value).take(4)[1] == "-pw="@[1]);
    }
}

/// The password never reaches the command line unless it was asked for: with
/// `include_password == false` no argument starts with `-pw=`.
pub proof fn law_password_only_on_request(
    launch: SapLaunch,
    username: Seq<char>,
    password: Seq<char>,
)
    ensures
        forall|i: int|
            0 <= i < arguments_spec(launch, username, password, false).len() ==> !text::starts_with(
                #[trigger] arguments_spec(launch, username, password, false)[i],
                "-pw="@,
            ),
{
    reveal_strlit("-system=");
    reveal_strlit("-client=");
    reveal_strlit("-guiparm=");
    reveal_strlit("-user=");
    reveal_strlit("-language=");
    reveal_strlit("-maxgui");
    reveal_strlit("-type=Transaction");
    reveal_strlit("-command=");
    let args = arguments_spec(launch, username, password, false);
    lemma_prefix_not_pw("-system="@, trim(launch.system_id@));
    lemma_prefix_not_pw("-client="@, normalize_client_spec(launch.client@));
    lemma_prefix_not_pw("-guiparm="@, trim(launch.guiparm@));
    lemma_prefix_not_pw("-user="@, trim(username));
    lemma_prefix_not_pw("-language="@, trim(launch.language@));
    lemma_prefix_not_pw("-maxgui"@, Seq::<char>::empty());
    lemma_prefix_not_pw("-type=Transaction"@, Seq::<char>::empty());
    lemma_prefix_not_pw("-command="@, trim(launch.transaction@));
    assert("-maxgui"@ + Seq::<char>::empty() =~= "-maxgui"@);
    assert("-type=Transaction"@ + Seq::<char>::empty() =~= "-type=Transaction"@);
}

proof fn lemma_opt_arg_not_maxgui(prefix: Seq<char>, value: Seq<char>)
    requires
        prefix.len() >= 1,
        prefix.last() == '=',
    ensures
        !opt_arg(prefix, value).contains("-maxgui"@),
{
    reveal_strlit("-maxgui");
    if opt_arg(prefix, value).contains("-maxgui"@) {
        let a = prefix + value;
        assert(opt_arg(prefix, value)[0] == a);
        let k = prefix.len() - 1;
        assert(a[k] == '=');
        if a.len() == 7 {
            assert(a[k] == "-maxgui"@[k]);
        }
    }
}

proof fn lemma_concat_lacks(a: Seq<Seq<char>>, b: Seq<Seq<char>>, x: Seq<char>)
    requires
        !a.contains(x),
        !b.contains(x),
    ensures
        !(a + b).contains(x),
{
    if (a + b).contains(x) {
        let i = choose|i: int| 0 <= i < (a + b).len() && (a + b)[i] == x;
        if i < a.len() {
            assert(a[i] == x);
        } else {
            assert(b[i - a.len()] == x);
        }
    }
}

/// The window is maximised exactly when asked for: `-maxgui` is among the
/// arguments if and only if `maximize` is set, whatever the other settings
/// (no other argument can read `-maxgui`: each of them holds a `=`).
pub proof fn law_maxgui_exactly_when_maximized(
    launch: SapLaunch,
    username: Seq<char>,
    password: Seq<char>,
    include_password: bool,
)
    ensures
        arguments_spec(launch, username, password, include_password).contains("-maxgui"@) <==> launch.maximize,
{
    reveal_strlit("-system=");
    reveal_strlit("-client=");
    reveal_strlit("-guiparm=");
    reveal_strlit("-user=");
    reveal_strlit("-language=");
    reveal_strlit("-maxgui");
    reveal_strlit("-type=Transaction");
    reveal_strlit("-command=");
    reveal_strlit("-pw=");
    let p1 = opt_arg("-system="@, trim(launch.system_id@));
    let p2 = opt_arg("-client="@, normalize_client_spec(launch.client@));
    let p3 = opt_arg("-guiparm="@, trim(launch.guiparm@));
    let p4 = opt_arg("-user="@, trim(username));
    let p5 = opt_arg("-language="@, trim(launch.language@));
    let p6: Seq<Seq<char>> = if include_password && password.len() > 0 {
        seq!["-pw="@ + password]
    } else {
        seq![]
    };
    let m: Seq<Seq<char>> = if launch.maximize {
        seq!["-maxgui"@]
    } else {
        seq![]
    };
    let t: Seq<Seq<char>> = if trim(launch.transaction@).len() == 0 {
        seq![]
    } else {
        seq!["-type=Transaction"@, "-command="@ + trim(launch.transaction@)]
    };
    let args = arguments_spec(launch, username, password, include_password);
    assert(args == p1 + p2 + p3 + p4 + p5 + p6 + m + t);
    lemma_opt_arg_not_maxgui("-system="@, trim(launch.system_id@));
    lemma_opt_arg_not_maxgui("-client="@, normalize_client_spec(launch.client@));
    lemma_opt_arg_not_maxgui("-guiparm="@, trim(launch.guiparm@));
    lemma_opt_arg_not_maxgui("-user="@, trim(username));
    lemma_opt_arg_not_maxgui("-language="@, trim(launch.language@));
    lemma_opt_arg_not_maxgui("-pw="@, password);
    lemma_opt_arg_not_maxgui("-command="@, trim(launch.transaction@));
    if include_password && password.len() > 0 {
        assert(p6 =~= opt_arg("-pw="@, password));
    } else {
        assert(!p6.contains("-maxgui"@));
    }
    assert(!t.contains("-maxgui"@)) by {
        if trim(launch.transaction@).len() > 0 {
            assert(t =~= seq!["-type=Transaction"@] + opt_arg("-command="@, trim(launch.transaction@)));
            if seq!["-type=Transaction"@].contains("-maxgui"@) {
                assert("-type=Transaction"@.len() != "-maxgui"@.len());
            }
            lemma_concat_lacks(seq!["-type=Transaction"@], opt_arg("-command="@, trim(launch.transaction@)), "-maxgui"@);
        }
    }
    let pre = p1 + p2 + p3 + p4 + p5 + p6;
    lemma_concat_lacks(p1, p2, "-maxgui"@);
    lemma_concat_lacks(p1 + p2, p3, "-maxgui"@);
    lemma_concat_lacks(p1 + p2 + p3, p4, "-maxgui"@);
    lemma_concat_lacks(p1 + p2 + p3 + p4, p5, "-maxgui"@);
    lemma_concat_lacks(p1 + p2 + p3 + p4 + p5, p6, "-maxgui"@);
    if launch.maximize {
        assert(args[pre.len() as int] == "-maxgui"@);
    } else {
        assert(pre + m + t =~= pre + t);
        lemma_concat_lacks(pre, t, "-maxgui"@);
    }
}

proof fn lemma_opt_arg_lacks(prefix: Seq<char>, value: Seq<char>, x: Seq<char>)
    requires
        prefix.len() >= 2,
        x.len() >= 2,
        prefix[1] != x[1],
    ensures
        !opt_arg(prefix, value).contains(x),
{
    if opt_arg(prefix, value).contains(x) {
        assert(opt_arg(prefix, value)[0] == prefix + value);
        assert((prefix + value)[1] == prefix[1]);
    }
}

/// The password is handed over on the command line exactly when that is
/// asked for and there is a password: `-pw=` followed by the password is
/// then among the arguments, and otherwise it is not.
pub proof fn law_password_argument_exactly_when_asked(
    launch: SapLaunch,
    username: Seq<char>,
    password: Seq<char>,
    include_password: bool,
)
    ensures
        arguments_spec(launch, username, password, include_password).contains("-pw="@ + password) <==> (include_password
            && password.len() > 0),
{
    reveal_strlit("-system=");
    reveal_strlit("-client=");
    reveal_strlit("-guiparm=");
    reveal_strlit("-user=");
    reveal_strlit("-language=");
    reveal_strlit("-maxgui");
    reveal_strlit("-type=Transaction");
    reveal_strlit("-command=");
    reveal_strlit("-pw=");
    let x = "-pw="@ + password;
    assert(x[1] == 'p');
    let p1 = opt_arg("-system="@, trim(launch.system_id@));
    let p2 = opt_arg("-client="@, normalize_client_spec(launch.client@));
    let p3 = opt_arg("-guiparm="@, trim(launch.guiparm@));
    let p4 = opt_arg("-user="@, trim(username));
    let p5 = opt_arg("-language="@, trim(launch.language@));
    let p6: Seq<Seq<char>> = if include_password && password.len() > 0 {
        seq!["-pw="@ + password]
    } else {
        seq![]
    };
    let m: Seq<Seq<char>> = if launch.maximize {
        seq!["-maxgui"@]
    } else {
        seq![]
    };
    let t: Seq<Seq<char>> = if trim(launch.transaction@).len() == 0 {
        seq![]
    } else {
        seq!["-type=Transaction"@, "-command="@ + trim(launch.transaction@)]
    };
    let args = arguments_spec(launch, username, password, include_password);
    assert(args == p1 + p2 + p3 + p4 + p5 + p6 + m + t);
    lemma_opt_arg_lacks("-system="@, trim(launch.system_id@), x);
    lemma_opt_arg_lacks("-client="@, normalize_client_spec(launch.client@), x);
    lemma_opt_arg_lacks("-guiparm="@, trim(launch.guiparm@), x);
    lemma_opt_arg_lacks("-user="@, trim(username), x);
    lemma_opt_arg_lacks("-language="@, trim(launch.language@), x);
    lemma_opt_arg_lacks("-maxgui"@, Seq::<char>::empty(), x);
    lemma_opt_arg_lacks("-type=Transaction"@, Seq::<char>::empty(), x);
    lemma_opt_arg_lacks("-command="@, trim(launch.transaction@), x);
    assert("-maxgui"@ + Seq::<char>::empty() =~= "-maxgui"@);
    assert("-type=Transaction"@ + Seq::<char>::empty() =~= "-type=Transaction"@);
    assert(!m.contains(x)) by {
        if launch.maximize {
            if m.contains(x) {
                assert(m[0] == "-maxgui"@);
            }
        }
    }
    assert(!t.contains(x)) by {
        if trim(launch.transaction@).len() > 0 {
            assert(t =~= seq!["-type=Transaction"@] + opt_arg("-command="@, trim(launch.transaction@)));
            if seq!["-type=Transaction"@].contains(x) {
                assert(seq!["-type=Transaction"@][0] == x);
            }
            lemma_concat_lacks(seq!["-type=Transaction"@], opt_arg("-command="@, trim(launch.transaction@)), x);
        }
    }
    lemma_concat_lacks(p1, p2, x);
    lemma_concat_lacks(p1 + p2, p3, x);
    lemma_concat_lacks(p1 + p2 + p3, p4, x);
    lemma_concat_lacks(p1 + p2 + p3 + p4, p5, x);
    let pre = p1 + p2 + p3 + p4 + p5;
    if include_password && password.len() > 0 {
        assert(args[pre.len() as int] == x);
    } else {
        assert(args =~= pre + (m + t));
        lemma_concat_lacks(m, t, x);
        lemma_concat_lacks(pre, m + t, x);
    }
}

/// A masked argument list never shows a password: every argument that starts
/// with `-pw=` is exactly `-pw=***`.
pub proof fn law_masked_arguments_hide_passwords(arguments: Seq<Seq<char>>)
    ensures
        forall|i: int|
            0 <= i < arguments.len() && text::starts_with(mask_spec(#[trigger] arguments[i]), "-pw="@)
                ==> mask_spec(arguments[i]) == "-pw=***"@,
{
    reveal_strlit("-pw=");
    reveal_strlit("-pw=***");
}

/// What a start of SAP GUI reports to the user.
#[derive(Debug, Clone)]
pub struct LaunchOutcome {
    pub mode: String,
    pub executable: String,
    /// Arguments with the password masked; safe to show.
    pub arguments: Vec<String>,
    pub password_on_command_line: bool,
    pub clipboard_seconds: u32,
    pub message: String,
}

} // verus!
