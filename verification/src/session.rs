//! The decisions taken for one invocation: the message text, whether the
//! message starts or continues a conversation, whether a priming turn goes
//! first, whether the reply streams, and the request text in execution mode.

use vstd::prelude::*;
use crate::config::opt_view;
use crate::state::{opt_str_view, stored_id};
use crate::text::{chars_of, has_prefix, string_from_chars, trim, trim_chars};

verus! {

/// The placeholder in the execution prompt that names the user's shell.
pub const SHELL_PLACEHOLDER: &'static str = "{shell}";

/// The text sent on a conversation's priming turn.
pub const PRIMING_MESSAGE: &'static str = "Hello";

/// Added to the execution request when the generated program is sourced in
/// the user's current Bash shell.
pub const SOURCED_SHELL_NOTE: &'static str = "\n\nThe generated program will be sourced in the user's current Bash shell. Preserve requested changes to the working directory, variables, and functions. For routine failure use return, not exit; invoke programs normally rather than using exec. Do not exit or replace the interactive shell unless explicitly requested.";

/// Why there is no message to send.
#[derive(Debug, PartialEq, Eq, Structural)]
pub enum MessageError {
    /// No words were given and standard input is a terminal.
    NoInput,
    /// The message is empty.
    Empty,
}

/// The words joined with single spaces (`[String]::join(" ")`).
pub open spec fn join_words(words: Seq<Seq<char>>) -> Seq<char>
    decreases words.len(),
{
    if words.len() == 0 {
        Seq::empty()
    } else if words.len() == 1 {
        words[0]
    } else {
        join_words(words.drop_last()) + " "@ + words.last()
    }
}

/// The message for the given words, or when there are none, for the text read
/// from standard input (`None` where standard input is a terminal).
pub open spec fn message_outcome(words: Seq<Seq<char>>, stdin_text: Option<Seq<char>>) -> Result<
    Seq<char>,
    MessageError,
> {
    if words.len() > 0 {
        if join_words(words).len() == 0 {
            Err(MessageError::Empty)
        } else {
            Ok(join_words(words))
        }
    } else {
        match stdin_text {
            None => Err(MessageError::NoInput),
            Some(t) => if trim(t).len() == 0 {
                Err(MessageError::Empty)
            } else {
                Ok(trim(t))
            },
        }
    }
}

/// The view of a list of strings.
pub open spec fn words_view(v: Seq<String>) -> Seq<Seq<char>> {
    v.map_values(|s: String| s@)
}

/// `words` joined with single spaces.
pub fn join_with_spaces(words: &Vec<String>) -> (res: String)
    ensures
        res@ == join_words(words_view(words@)),
{
    let mut out = String::new();
    let n = words.len();
    let mut i: usize = 0;
    while i < n
        invariant
            n == words@.len(),
            0 <= i <= n,
            out@ == join_words(words_view(words@).take(i as int)),
        decreases n - i,
    {
        let ghost before = words_view(words@).take(i as int);
        let ghost after = words_view(words@).take(i + 1);
        assert(after.drop_last() =~= before);
        if i > 0 {
            out.append(" ");
        }
        out.append(words[i].as_str());
        proof {
            if i == 0 {
                assert(out@ =~= after[0]);
            }
        }
        i = i + 1;
    }
    assert(words_view(words@).take(n as int) =~= words_view(words@));
    out
}

/// The message to send: the words joined with spaces, or when no words are
/// given, the trimmed text of standard input (`None` where it is a terminal).
pub fn message_text(words: &Vec<String>, stdin_text: Option<&str>) -> (res: Result<String, MessageError>)
    ensures
        match res {
            Ok(m) => message_outcome(words_view(words@), opt_str_view(stdin_text)) == Ok::<
                Seq<char>,
                MessageError,
            >(m@),
            Err(e) => message_outcome(words_view(words@), opt_str_view(stdin_text)) == Err::<
                Seq<char>,
                MessageError,
            >(e),
        },
{
    if words.len() > 0 {
        let m = join_with_spaces(words);
        if m.unicode_len() == 0 {
            return Err(MessageError::Empty);
        }
        return Ok(m);
    }
    match stdin_text {
        None => Err(MessageError::NoInput),
        Some(t) => {
            let chars = chars_of(t);
            let trimmed = trim_chars(chars.as_slice());
            if trimmed.len() == 0 {
                Err(MessageError::Empty)
            } else {
                Ok(string_from_chars(trimmed.as_slice()))
            }
        },
    }
}

/// `s` with every occurrence of the non-empty `pat` replaced by `rep`,
/// matching from the left without overlap (`str::replace`).
pub open spec fn replace_all(s: Seq<char>, pat: Seq<char>, rep: Seq<char>) -> Seq<char>
    decreases s.len(),
{
    if s.len() == 0 {
        s
    } else if pat.len() > 0 && has_prefix(s, pat) {
        rep + replace_all(s.skip(pat.len() as int), pat, rep)
    } else {
        seq![s[0]] + replace_all(s.drop_first(), pat, rep)
    }
}

/// Whether `pat` occurs in `s` at `i`.
fn matches_at(s: &[char], i: usize, pat: &[char]) -> (res: bool)
    requires
        i <= s@.len(),
    ensures
        res == has_prefix(s@.skip(i as int), pat@),
{
    if pat.len() > s.len() - i {
        return false;
    }
    let mut j: usize = 0;
    while j < pat.len()
        invariant
            i + pat@.len() <= s@.len(),
            s@.len() == s.len(),
            pat@.len() == pat.len(),
            0 <= j <= pat@.len(),
            forall|a: int| 0 <= a < j ==> s@[i + a] == pat@[a],
        decreases pat@.len() - j,
    {
        if s[i + j] != pat[j] {
            assert(s@.skip(i as int).take(pat@.len() as int)[j as int] != pat@[j as int]);
            return false;
        }
        j = j + 1;
    }
    assert(s@.skip(i as int).take(pat@.len() as int) =~= pat@);
    true
}

fn push_all(out: &mut Vec<char>, more: &[char])
    ensures
        final(out)@ == old(out)@ + more@,
{
    let mut j: usize = 0;
    while j < more.len()
        invariant
            0 <= j <= more@.len(),
            out@ == old(out)@ + more@.take(j as int),
        decreases more@.len() - j,
    {
        out.push(more[j]);
        j = j + 1;
    }
    assert(more@.take(more@.len() as int) =~= more@);
}

/// `s` with every occurrence of the non-empty `pat` replaced by `rep`.
pub fn replace_chars(s: &[char], pat: &[char], rep: &[char]) -> (res: Vec<char>)
    requires
        pat@.len() > 0,
    ensures
        res@ == replace_all(s@, pat@, rep@),
{
    let n = s.len();
    let mut out: Vec<char> = Vec::new();
    let mut i: usize = 0;
    assert(s@.skip(0) =~= s@);
    while i < n
        invariant
            n == s@.len(),
            0 <= i <= n,
            pat@.len() > 0,
            out@ + replace_all(s@.skip(i as int), pat@, rep@) == replace_all(s@, pat@, rep@),
        decreases n - i,
    {
        let ghost rest = s@.skip(i as int);
        if matches_at(s, i, pat) {
            push_all(&mut out, rep);
            proof {
                assert(rest.skip(pat@.len() as int) =~= s@.skip(i + pat@.len()));
                assert(out@ + replace_all(s@.skip(i + pat@.len()), pat@, rep@) =~= out@.subrange(
                    0,
                    out@.len() - rep@.len(),
                ) + replace_all(rest, pat@, rep@));
            }
            i = i + pat.len();
        } else {
            out.push(s[i]);
            proof {
                assert(rest.drop_first() =~= s@.skip(i + 1));
                assert(out@ + replace_all(s@.skip(i + 1), pat@, rep@) =~= out@.drop_last()
                    + replace_all(rest, pat@, rep@));
            }
            i = i + 1;
        }
    }
    assert(s@.skip(n as int) =~= Seq::<char>::empty());
    assert(out@ + Seq::<char>::empty() =~= out@);
    out
}

/// The request text in execution mode: the message, a blank line, the
/// execution prompt with `{shell}` replaced by the user's shell, and, when
/// the result is sourced in the current Bash shell, the note that says so.
pub open spec fn exec_request_text(message: Seq<char>, exec_prompt: Seq<char>, shell: Seq<char>, sourced: bool) -> Seq<char> {
    message + "\n\n"@ + replace_all(exec_prompt, SHELL_PLACEHOLDER@, shell) + if sourced {
        SOURCED_SHELL_NOTE@
    } else {
        Seq::empty()
    }
}

/// The request text in execution mode.
pub fn exec_message(message: &str, exec_prompt: &str, shell: &str, sourced: bool) -> (res: String)
    ensures
        res@ == exec_request_text(message@, exec_prompt@, shell@, sourced),
{
    let prompt = chars_of(exec_prompt);
    let pat = chars_of(SHELL_PLACEHOLDER);
    proof {
        reveal_strlit("{shell}");
    }
    let shell_chars = chars_of(shell);
    let replaced = replace_chars(prompt.as_slice(), pat.as_slice(), shell_chars.as_slice());
    let mut out = String::from_str(message);
    out.append("\n\n");
    let r = string_from_chars(replaced.as_slice());
    out.append(r.as_str());
    if sourced {
        out.append(SOURCED_SHELL_NOTE);
    }
    assert(out@ =~= exec_request_text(message@, exec_prompt@, shell@, sourced));
    out
}

/// How one message is sent.
pub struct TurnPlan {
    /// The conversation the message continues; `None` starts a new one.
    pub conversation_id: Option<String>,
    /// Whether the message starts a new conversation.
    pub new_conversation: bool,
    /// The system prompt sent with it: only on a new conversation.
    pub system: Option<String>,
    /// Whether a priming turn goes first: on a new conversation in
    /// execution mode, to absorb the server's automatic first-turn output.
    pub prime_first: bool,
    /// Whether the reply streams: never in execution mode.
    pub stream: bool,
}

/// The plan for a message on a thread whose stored conversation id is
/// `stored_id`.
pub open spec fn plan_spec(
    stored_id: Option<Seq<char>>,
    start_new: bool,
    system: Option<Seq<char>>,
    exec: bool,
    no_stream: bool,
    config_stream: bool,
) -> (Option<Seq<char>>, bool, Option<Seq<char>>, bool, bool) {
    let id = if start_new {
        None
    } else {
        stored_id
    };
    let new_conversation = id is None;
    (
        id,
        new_conversation,
        if new_conversation {
            system
        } else {
            None
        },
        new_conversation && exec,
        !exec && !no_stream && config_stream,
    )
}

impl TurnPlan {
    pub open spec fn view_tuple(self) -> (Option<Seq<char>>, bool, Option<Seq<char>>, bool, bool) {
        (
            opt_view(self.conversation_id),
            self.new_conversation,
            opt_view(self.system),
            self.prime_first,
            self.stream,
        )
    }

    /// After the priming turn: the message continues the conversation that
    /// the priming turn opened, when the server named it.
    pub fn continue_after_priming(&mut self, priming_id: Option<String>)
        ensures
            opt_view(final(self).conversation_id) == match opt_view(priming_id) {
                Some(id) => Some(id),
                None => opt_view(old(self).conversation_id),
            },
            final(self).new_conversation == old(self).new_conversation,
            opt_view(final(self).system) == opt_view(old(self).system),
            final(self).prime_first == old(self).prime_first,
            final(self).stream == old(self).stream,
    {
        if let Some(id) = priming_id {
            self.conversation_id = Some(id);
        }
    }
}

/// Decides how a message is sent on a thread whose stored conversation id
/// is `stored_id`: `start_new` (`-n`) ignores it; the system prompt goes only
/// with a new conversation; execution mode primes a new conversation and
/// never streams.
pub fn plan_turn(
    stored_id: Option<&str>,
    start_new: bool,
    system: Option<&str>,
    exec: bool,
    no_stream: bool,
    config_stream: bool,
) -> (res: TurnPlan)
    ensures
        res.view_tuple() == plan_spec(
            opt_str_view(stored_id),
            start_new,
            opt_str_view(system),
            exec,
            no_stream,
            config_stream,
        ),
{
    let conversation_id = if start_new {
        None
    } else {
        match stored_id {
            Some(id) => Some(String::from_str(id)),
            None => None,
        }
    };
    let new_conversation = conversation_id.is_none();
    let system = if new_conversation {
        match system {
            Some(s) => Some(String::from_str(s)),
            None => None,
        }
    } else {
        None
    };
    TurnPlan {
        conversation_id,
        new_conversation,
        system,
        prime_first: new_conversation && exec,
        stream: !exec && !no_stream && config_stream,
    }
}

/// A message continues the thread: once an id is stored for the thread, the
/// next message without `-n` continues that conversation, as an old one
/// (no system prompt, no priming turn).
pub proof fn law_next_message_continues(
    m: Map<Seq<char>, Option<Seq<char>>>,
    thread: Seq<char>,
    id: Seq<char>,
    system: Option<Seq<char>>,
    exec: bool,
    no_stream: bool,
    config_stream: bool,
)
    ensures
        ({
            let p = plan_spec(
                stored_id(m.insert(thread, Some(id)), thread),
                false,
                system,
                exec,
                no_stream,
                config_stream,
            );
            p.0 == Some(id) && !p.1 && p.2 is None && !p.3
        }),
{
}

/// `-n` starts fresh, and so does a thread that was reset or never used: no
/// conversation id is sent and the system prompt goes with the message.
pub proof fn law_new_or_reset_starts_fresh(
    m: Map<Seq<char>, Option<Seq<char>>>,
    thread: Seq<char>,
    start_new: bool,
    system: Option<Seq<char>>,
    exec: bool,
    no_stream: bool,
    config_stream: bool,
)
    requires
        start_new || !m.contains_key(thread),
    ensures
        ({
            let p = plan_spec(stored_id(m, thread), start_new, system, exec, no_stream, config_stream);
            p.0 is None && p.1 && p.2 == system && p.3 == exec
        }),
        ({
            let p = plan_spec(
                stored_id(m.remove(thread), thread),
                false,
                system,
                exec,
                no_stream,
                config_stream,
            );
            p.0 is None && p.1
        }),
{
}

/// Execution mode never streams, so only complete replies are executed.
pub proof fn law_exec_never_streams(
    stored: Option<Seq<char>>,
    start_new: bool,
    system: Option<Seq<char>>,
    no_stream: bool,
    config_stream: bool,
)
    ensures
        !plan_spec(stored, start_new, system, true, no_stream, config_stream).4,
{
}

/// `--no-stream` always prints the whole reply at once, and so does a
/// configuration with streaming off (`CM_STREAM`), whatever the other flags
/// say; with neither of them, outside execution mode, the reply streams.
pub proof fn law_stream_needs_every_switch_on(
    stored: Option<Seq<char>>,
    start_new: bool,
    system: Option<Seq<char>>,
    exec: bool,
    no_stream: bool,
    config_stream: bool,
)
    ensures
        !plan_spec(stored, start_new, system, exec, true, config_stream).4,
        !plan_spec(stored, start_new, system, exec, no_stream, false).4,
        plan_spec(stored, start_new, system, false, false, true).4,
{
}

/// Only the new message is sent: the request holds the user's message last,
/// preceded by a system prompt only when the plan starts a new conversation.
pub proof fn law_only_new_message_is_sent(
    stored: Option<Seq<char>>,
    start_new: bool,
    system: Option<Seq<char>>,
    exec: bool,
    no_stream: bool,
    config_stream: bool,
    message: Seq<char>,
)
    ensures
        ({
            let p = plan_spec(stored, start_new, system, exec, no_stream, config_stream);
            let msgs = crate::client::request_messages(p.2, message);
            &&& 1 <= msgs.len() <= 2
            &&& msgs.last() == ("user"@, message)
            &&& msgs.len() == 2 ==> p.1 && system is Some && msgs[0] == ("system"@, system->0)
        }),
{
}

} // verus!
