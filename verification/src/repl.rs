//! The pure decisions of the interactive driver: command termination across
//! continuation lines, the history save policy, the execution summary line,
//! the keybindings builtin, and the history-file setup decision.

use vstd::prelude::*;
use vstd::string::{StrSliceExecFns, StringExecFns};
use crate::retrieve::{string_get_spec, LookupView, StringLookup};
use crate::store::Variables;
use crate::text::{dec_of, push_char, str_eq, trim_end_spec, trim_end_str, u64_to_dec};

verus! {

/// The number of backslashes ending the text.
pub open spec fn trailing_backslashes(s: Seq<char>) -> nat
    decreases s.len(),
{
    if s.len() > 0 && s.last() == '\\' {
        1 + trailing_backslashes(s.drop_last())
    } else {
        0
    }
}

/// A command text awaits a continuation line exactly when it ends in an
/// unescaped backslash, that is an odd run of backslashes.
pub open spec fn unterminated(s: Seq<char>) -> bool {
    trailing_backslashes(s) % 2 == 1
}

/// Decides whether the accumulated command text forms a complete command.
#[verifier::loop_isolation(false)]
pub fn check_terminated(s: &str) -> (r: bool)
    ensures
        r == !unterminated(s@),
{
    let len = s.unicode_len();
    let mut e = len;
    proof {
        assert(s@.subrange(0, len as int) =~= s@);
    }
    while e > 0 && s.get_char(e - 1) == '\\'
        invariant
            0 <= e <= len,
            len == s@.len(),
            trailing_backslashes(s@) == trailing_backslashes(s@.subrange(0, e as int)) + (len - e),
        decreases e,
    {
        proof {
            let pre = s@.subrange(0, e as int);
            assert(pre.last() == s@[e - 1]);
            assert(pre.drop_last() =~= s@.subrange(0, e - 1));
        }
        e = e - 1;
    }
    proof {
        let pre = s@.subrange(0, e as int);
        if e > 0 {
            assert(pre.last() == s@[e - 1]);
        }
        assert(trailing_backslashes(pre) == 0);
    }
    (len - e) % 2 == 0
}

/// Feeds one line into the pending command text. Lines accumulate joined by
/// newlines; when the whole no longer awaits a continuation it is taken,
/// trailing whitespace trimmed, and the pending text cleared — otherwise
/// everything is kept and the caller shows the continuation prompt.
pub fn feed_line(pending: &mut String, line: &str) -> (r: Option<String>)
    ensures
        ({
            let joined = if old(pending)@.len() == 0 {
                line@
            } else {
                old(pending)@ + seq!['\n'] + line@
            };
            &&& (unterminated(joined) ==> r is None && final(pending)@ == joined)
            &&& (!unterminated(joined) ==> final(pending)@.len() == 0 && (match r {
                Some(c) => c@ == trim_end_spec(joined),
                None => false,
            }))
        }),
{
    if !pending.as_str().is_empty() {
        push_char(pending, '\n');
    }
    pending.append(line);
    if check_terminated(pending.as_str()) {
        let cmd = trim_end_str(pending.as_str()).to_owned();
        *pending = String::new();
        Some(cmd)
    } else {
        None
    }
}

/// The history save policy: a command whose expanded form names an existing
/// directory is stored with a trailing slash, so directory hops redisplay as
/// paths; anything else is stored verbatim.
pub open spec fn saved_form_spec(cmd: Seq<char>, names_directory: bool) -> Seq<char> {
    if names_directory && !(cmd.len() > 0 && cmd.last() == '/') {
        cmd + seq!['/']
    } else {
        cmd
    }
}

/// The text to store in history for a submitted command; the caller says
/// whether the command's tilde-expanded form names an existing directory.
pub fn save_command(cmd: &str, names_directory: bool) -> (r: String)
    ensures
        r@ == saved_form_spec(cmd@, names_directory),
{
    let len = cmd.unicode_len();
    let ends_slash = len > 0 && cmd.get_char(len - 1) == '/';
    if names_directory && !ends_slash {
        let mut s = cmd.to_owned();
        push_char(&mut s, '/');
        s
    } else {
        cmd.to_owned()
    }
}

/// Ten to the `k`.
pub open spec fn pow10(k: nat) -> int
    decreases k,
{
    if k == 0 {
        1
    } else {
        10 * pow10((k - 1) as nat)
    }
}

proof fn lemma_dec_of_len(n: int, k: nat)
    requires
        0 <= n,
        k >= 1,
        n < pow10(k),
    ensures
        dec_of(n).len() <= k,
    decreases k,
{
    if n >= 10 {
        assert(k >= 2) by {
            if k == 1 {
                assert(pow10(1) == 10);
            }
        }
        assert(n / 10 < pow10((k - 1) as nat)) by {
            assert(pow10(k) == 10 * pow10((k - 1) as nat));
        }
        lemma_dec_of_len(n / 10, (k - 1) as nat);
    }
}

/// A number zero-padded to nine digits.
pub open spec fn pad9(n: int) -> Seq<char> {
    if dec_of(n).len() >= 9 {
        dec_of(n)
    } else {
        Seq::new((9 - dec_of(n).len()) as nat, |i: int| '0') + dec_of(n)
    }
}

/// The summary line recorded after a command: its elapsed real time in
/// seconds, with nanoseconds zero-padded to nine digits.
pub open spec fn summary_line_spec(secs: int, nanos: int) -> Seq<char> {
    "#summary# elapsed real time: "@ + dec_of(secs) + seq!['.'] + pad9(nanos) + " seconds"@
}

/// Builds the summary line for an elapsed time.
#[verifier::loop_isolation(false)]
pub fn summary_line(secs: u64, nanos: u32) -> (r: String)
    requires
        nanos < 1000000000,
    ensures
        r@ == summary_line_spec(secs as int, nanos as int),
{
    proof {
        reveal_with_fuel(pow10, 11);
        assert(pow10(9) == 1000000000);
        lemma_dec_of_len(nanos as int, 9);
    }
    let mut s = "#summary# elapsed real time: ".to_owned();
    let secs_dec = u64_to_dec(secs);
    s.append(secs_dec.as_str());
    push_char(&mut s, '.');
    let nanos_dec = u64_to_dec(nanos as u64);
    let dlen = nanos_dec.unicode_len();
    let mut z: usize = 0;
    while z < 9 - dlen
        invariant
            dlen == dec_of(nanos as int).len(),
            dlen <= 9,
            0 <= z <= 9 - dlen,
            s@ == "#summary# elapsed real time: "@ + dec_of(secs as int) + seq!['.'] + Seq::new(
                z as nat,
                |i: int| '0',
            ),
        decreases 9 - dlen - z,
    {
        push_char(&mut s, '0');
        proof {
            assert(Seq::new((z + 1) as nat, |i: int| '0') =~= Seq::new(z as nat, |i: int| '0').push(
                '0',
            ));
            assert(s@ =~= "#summary# elapsed real time: "@ + dec_of(secs as int) + seq!['.']
                + Seq::new((z + 1) as nat, |i: int| '0'));
        }
        z += 1;
    }
    s.append(nanos_dec.as_str());
    s.append(" seconds");
    proof {
        assert(s@ =~= summary_line_spec(secs as int, nanos as int));
    }
    s
}

/// The editor's key-binding modes.
#[derive(PartialEq, Eq, Structural, Clone, Copy, Debug)]
pub enum KeyBindingMode {
    Vi,
    Emacs,
}

/// Interprets the arguments of the keybindings builtin: its single argument
/// names the mode; anything else is the error the builtin reports.
pub fn keybindings_command(args: &Vec<String>) -> (r: Result<KeyBindingMode, String>)
    ensures
        args.deep_view().len() >= 2 && args.deep_view()[1] == "vi"@ ==> r matches Ok(
            KeyBindingMode::Vi,
        ),
        args.deep_view().len() >= 2 && args.deep_view()[1] == "emacs"@ ==> r matches Ok(
            KeyBindingMode::Emacs,
        ),
        args.deep_view().len() >= 2 && args.deep_view()[1] != "vi"@ && args.deep_view()[1]
            != "emacs"@ ==> (r matches Err(m) && m@
            == "Invalid keybindings. Choices are vi and emacs"@),
        args.deep_view().len() < 2 ==> (r matches Err(m) && m@ == "keybindings need an argument"@),
{
    proof {
        reveal_strlit("vi");
        reveal_strlit("emacs");
        assert("vi"@.len() == 2);
        assert("emacs"@.len() == 5);
    }
    if args.len() >= 2 {
        proof {
            assert(args.deep_view()[1] == args@[1]@);
        }
        if str_eq(args[1].as_str(), "vi") {
            Ok(KeyBindingMode::Vi)
        } else if str_eq(args[1].as_str(), "emacs") {
            Ok(KeyBindingMode::Emacs)
        } else {
            Err("Invalid keybindings. Choices are vi and emacs".to_owned())
        }
    } else {
        Err("keybindings need an argument".to_owned())
    }
}

/// The decision the driver takes about its history file.
pub enum HistorySetup {
    Disabled,
    MissingPath,
    Path(String),
}

impl Variables {
    /// Whether history loading is enabled, and at which path: enabled
    /// exactly when the enabling variable reads `1`; enabled without a path
    /// is the error the driver fails on.
    pub fn history_setup(&self) -> (r: HistorySetup)
        requires
            self.wf(),
        ensures
            string_get_spec(self@, "HISTFILE_ENABLED"@) != LookupView::Found("1"@) ==> r is Disabled,
            string_get_spec(self@, "HISTFILE_ENABLED"@) == LookupView::Found("1"@) ==> (match string_get_spec(self@, "HISTFILE"@) {
                LookupView::Found(p) => (r matches HistorySetup::Path(s) && s@ == p),
                _ => r is MissingPath,
            }),
    {
        proof {
            reveal_strlit("HISTFILE_ENABLED");
            reveal_strlit("HISTFILE");
            reveal_strlit("MWD");
            reveal_strlit("SWD");
            assert("HISTFILE_ENABLED"@.len() == 16);
            assert("HISTFILE"@.len() == 8);
            assert("MWD"@.len() == 3);
            assert("SWD"@.len() == 3);
        }
        let enabled = match self.get_string("HISTFILE_ENABLED") {
            StringLookup::Found(s) => str_eq(s.as_str(), "1"),
            _ => false,
        };
        if !enabled {
            return HistorySetup::Disabled;
        }
        match self.get_string("HISTFILE") {
            StringLookup::Found(p) => HistorySetup::Path(p),
            _ => HistorySetup::MissingPath,
        }
    }

    /// Whether the driver records a summary line after each command.
    pub fn records_summary(&self) -> (r: bool)
        requires
            self.wf(),
        ensures
            r == (string_get_spec(self@, "RECORD_SUMMARY"@) == LookupView::Found("1"@)),
    {
        proof {
            reveal_strlit("RECORD_SUMMARY");
            reveal_strlit("MWD");
            reveal_strlit("SWD");
            assert("RECORD_SUMMARY"@.len() == 14);
            assert("MWD"@.len() == 3);
            assert("SWD"@.len() == 3);
        }
        match self.get_string("RECORD_SUMMARY") {
            StringLookup::Found(s) => str_eq(s.as_str(), "1"),
            _ => false,
        }
    }
}

} // verus!
