//! Runtime configuration: the values read from the environment turned into a
//! `Config`, and the choice of the bearer token sent to the server.

use vstd::prelude::*;
use crate::text::{
    chars_of, find_char, find_char_from, lemma_find_char_bounds, string_from_chars, strip_trailing,
    strip_trailing_chars, sub_chars, trim, trim_chars,
};

verus! {

#[verifier::external_type_specification]
#[verifier::external_body]
pub struct ExPathBuf(std::path::PathBuf);

/// The server used when `CM_BASE_URL` is not set.
pub const DEFAULT_BASE_URL: &'static str = "http://localhost:8799";

/// The model used when `CM_MODEL` is not set.
pub const DEFAULT_MODEL: &'static str = "auto";

/// The thread used when `CM_THREAD` is not set.
pub const DEFAULT_THREAD: &'static str = "default";

/// Prompt templates: `exec_prompt` (the `exec` entry of `prompts.yaml`) is appended to the
/// request in execution mode.
#[derive(Debug, Clone)]
pub struct Prompts {
    pub exec_prompt: String,
}

/// Resolved runtime configuration.
#[derive(Debug)]
pub struct Config {
    pub base_url: String,
    pub api_key: Option<String>,
    pub model: String,
    pub thread: String,
    pub stream: bool,
    pub state_dir: std::path::PathBuf,
}

/// The view of an optional owned string.
pub open spec fn opt_view(o: Option<String>) -> Option<Seq<char>> {
    match o {
        Some(s) => Some(s@),
        None => None,
    }
}

/// `value` unless it is absent or only whitespace.
pub open spec fn non_empty_value(v: Option<Seq<char>>) -> Option<Seq<char>> {
    match v {
        Some(s) => if trim(s).len() > 0 {
            Some(s)
        } else {
            None
        },
        None => None,
    }
}

/// The first entry of a comma-separated list that is not blank, trimmed.
pub open spec fn first_listed_key_spec(raw: Seq<char>) -> Option<Seq<char>>
    decreases raw.len(),
{
    let k = find_char(raw, ',');
    let piece = trim(raw.take(k));
    if piece.len() > 0 {
        Some(piece)
    } else if k < raw.len() {
        proof {
            lemma_find_char_bounds(raw, ',');
        }
        first_listed_key_spec(raw.skip(k + 1))
    } else {
        None
    }
}

/// The bearer token, in priority order: `CM_API_KEY`, `MIRROR_API_KEY`, the
/// first listed key of `MIRROR_API_KEYS`, `OPENAI_API_KEY`; blank values are
/// skipped.
pub open spec fn resolved_api_key(
    cm_api_key: Option<Seq<char>>,
    mirror_api_key: Option<Seq<char>>,
    mirror_api_keys: Option<Seq<char>>,
    openai_api_key: Option<Seq<char>>,
) -> Option<Seq<char>> {
    if non_empty_value(cm_api_key) is Some {
        non_empty_value(cm_api_key)
    } else if non_empty_value(mirror_api_key) is Some {
        non_empty_value(mirror_api_key)
    } else if non_empty_value(mirror_api_keys) is Some && first_listed_key_spec(
        non_empty_value(mirror_api_keys)->0,
    ) is Some {
        first_listed_key_spec(non_empty_value(mirror_api_keys)->0)
    } else {
        non_empty_value(openai_api_key)
    }
}

/// Whether a `CM_STREAM` value leaves streaming on: anything but `0`,
/// `false` and `no` does, and so does no value.
pub open spec fn stream_enabled(value: Option<Seq<char>>) -> bool {
    match value {
        Some(v) => !(v == "0"@ || v == "false"@ || v == "no"@),
        None => true,
    }
}

/// `v` unless it is absent or only whitespace.
pub fn non_empty(v: Option<String>) -> (res: Option<String>)
    ensures
        opt_view(res) == non_empty_value(opt_view(v)),
{
    match v {
        Some(s) => {
            let chars = chars_of(s.as_str());
            let t = trim_chars(chars.as_slice());
            if t.len() > 0 {
                Some(s)
            } else {
                None
            }
        },
        None => None,
    }
}

/// The first entry of the comma-separated `raw` that is not blank, trimmed.
pub fn first_listed_key(raw: &str) -> (res: Option<String>)
    ensures
        opt_view(res) == first_listed_key_spec(raw@),
{
    let s = chars_of(raw);
    let n = s.len();
    let mut start: usize = 0;
    assert(s@.skip(0) =~= s@);
    loop
        invariant
            n == s@.len(),
            s@ == raw@,
            0 <= start <= n,
            first_listed_key_spec(s@) == first_listed_key_spec(s@.skip(start as int)),
        decreases n - start,
    {
        let ghost rest = s@.skip(start as int);
        let k = find_char_from(s.as_slice(), start, ',');
        let piece_raw = sub_chars(s.as_slice(), start, k);
        let piece = trim_chars(piece_raw.as_slice());
        proof {
            lemma_find_char_bounds(rest, ',');
            assert(piece_raw@ =~= rest.take(k - start));
        }
        if piece.len() > 0 {
            return Some(string_from_chars(piece.as_slice()));
        }
        if k == n {
            return None;
        }
        proof {
            assert(rest.skip(k - start + 1) =~= s@.skip(k + 1));
        }
        start = k + 1;
    }
}

/// Chooses the bearer token to send, in priority order: `CM_API_KEY`,
/// `MIRROR_API_KEY`, the first non-blank entry of the comma-separated
/// `MIRROR_API_KEYS`, then `OPENAI_API_KEY`. Blank values are skipped.
pub fn resolve_api_key(
    cm_api_key: Option<String>,
    mirror_api_key: Option<String>,
    mirror_api_keys: Option<String>,
    openai_api_key: Option<String>,
) -> (res: Option<String>)
    ensures
        opt_view(res) == resolved_api_key(
            opt_view(cm_api_key),
            opt_view(mirror_api_key),
            opt_view(mirror_api_keys),
            opt_view(openai_api_key),
        ),
{
    if let Some(k) = non_empty(cm_api_key) {
        return Some(k);
    }
    if let Some(k) = non_empty(mirror_api_key) {
        return Some(k);
    }
    if let Some(raw) = non_empty(mirror_api_keys) {
        if let Some(k) = first_listed_key(raw.as_str()) {
            return Some(k);
        }
    }
    non_empty(openai_api_key)
}

/// Whether a `CM_STREAM` value leaves streaming on.
pub fn stream_setting(value: Option<&str>) -> (res: bool)
    ensures
        res == stream_enabled(match value {
            Some(v) => Some(v@),
            None => None,
        }),
{
    match value {
        Some(v) => {
            let s = String::from_str(v);
            let zero = String::from_str("0");
            let off = String::from_str("false");
            let no = String::from_str("no");
            !(s == zero || s == off || s == no)
        },
        None => true,
    }
}

/// `url` without trailing slashes.
pub fn normalize_base_url(url: &str) -> (res: String)
    ensures
        res@ == strip_trailing(url@, '/'),
{
    let chars = chars_of(url);
    let stripped = strip_trailing_chars(chars.as_slice(), '/');
    string_from_chars(stripped.as_slice())
}

/// The given string, or `default` when there is none.
fn or_default(v: Option<String>, default: &str) -> (res: String)
    ensures
        res@ == match opt_view(v) {
            Some(s) => s,
            None => default@,
        },
{
    match v {
        Some(s) => s,
        None => String::from_str(default),
    }
}

impl Config {
    /// The configuration for the given environment values (`None` where a
    /// variable is unset): defaults for the server, model and thread,
    /// trailing slashes removed from the server URL, streaming on unless
    /// switched off.
    pub fn from_values(
        base_url: Option<String>,
        api_key: Option<String>,
        model: Option<String>,
        thread: Option<String>,
        stream: Option<String>,
        state_dir: std::path::PathBuf,
    ) -> (res: Config)
        ensures
            res.base_url@ == strip_trailing(
                match opt_view(base_url) {
                    Some(u) => u,
                    None => DEFAULT_BASE_URL@,
                },
                '/',
            ),
            res.api_key == api_key,
            res.model@ == match opt_view(model) {
                Some(m) => m,
                None => DEFAULT_MODEL@,
            },
            res.thread@ == match opt_view(thread) {
                Some(t) => t,
                None => DEFAULT_THREAD@,
            },
            res.stream == stream_enabled(opt_view(stream)),
            res.state_dir == state_dir,
    {
        let url = or_default(base_url, DEFAULT_BASE_URL);
        let base_url = normalize_base_url(url.as_str());
        let stream = match &stream {
            Some(v) => stream_setting(Some(v.as_str())),
            None => stream_setting(None),
        };
        Config {
            base_url,
            api_key,
            model: or_default(model, DEFAULT_MODEL),
            thread: or_default(thread, DEFAULT_THREAD),
            stream,
            state_dir,
        }
    }
}

/// The server URL keeps no trailing slash, so the endpoint path is appended
/// with exactly one; stripping is idempotent and keeps a prefix of the input.
pub proof fn law_base_url_has_no_trailing_slash(url: Seq<char>)
    ensures
        ({
            let b = strip_trailing(url, '/');
            &&& b.len() == 0 || b.last() != '/'
            &&& strip_trailing(b, '/') == b
            &&& b.len() <= url.len()
            &&& url.take(b.len() as int) == b
        }),
    decreases url.len(),
{
    if url.len() > 0 && url.last() == '/' {
        law_base_url_has_no_trailing_slash(url.drop_last());
        let b = strip_trailing(url, '/');
        assert(url.drop_last().take(b.len() as int) =~= url.take(b.len() as int));
    } else {
        assert(url.take(url.len() as int) =~= url);
    }
}

/// An explicit `CM_API_KEY` that is not blank is sent as it is, whatever the
/// other variables hold; a blank one counts as unset.
pub proof fn law_cm_api_key_overrides(
    cm_api_key: Option<Seq<char>>,
    mirror_api_key: Option<Seq<char>>,
    mirror_api_keys: Option<Seq<char>>,
    openai_api_key: Option<Seq<char>>,
)
    ensures
        non_empty_value(cm_api_key) is Some ==> resolved_api_key(
            cm_api_key,
            mirror_api_key,
            mirror_api_keys,
            openai_api_key,
        ) == cm_api_key,
        non_empty_value(cm_api_key) is None ==> resolved_api_key(
            cm_api_key,
            mirror_api_key,
            mirror_api_keys,
            openai_api_key,
        ) == resolved_api_key(None, mirror_api_key, mirror_api_keys, openai_api_key),
{
}

/// `CM_STREAM` switches streaming off only with `0`, `false` or `no`: every
/// other value, `true` among them, leaves it on, and so does no value.
pub proof fn law_stream_off_only_by_off_words(v: Seq<char>)
    ensures
        !stream_enabled(Some(v)) <==> (v == seq!['0'] || v == seq!['f', 'a', 'l', 's', 'e'] || v
            == seq!['n', 'o']),
        stream_enabled(Some(seq!['t', 'r', 'u', 'e'])),
        stream_enabled(None),
{
    reveal_strlit("0");
    reveal_strlit("false");
    reveal_strlit("no");
    assert("0"@ =~= seq!['0']);
    assert("false"@ =~= seq!['f', 'a', 'l', 's', 'e']);
    assert("no"@ =~= seq!['n', 'o']);
    let t = seq!['t', 'r', 'u', 'e'];
    assert(t != "false"@) by {
        assert(t[0] != "false"@[0]);
    }
}

} // verus!
