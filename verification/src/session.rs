//! The session: the currently selected input and output bases, command
//! dispatch, and end-to-end conversion.

use vstd::prelude::*;
use vstd::string::StrSliceExecFns;
use crate::base::Base;
use crate::base::ParseError;
use crate::base::parse_spec;
use crate::base::format_spec;
use crate::base::label_spec;
use crate::chars::is_space;
use crate::chars::trim;
use crate::chars::str_to_chars;
use crate::chars::chars_to_string;
use crate::chars::trim_vec;
use crate::chars::suffix_vec;
use crate::chars::chars_eq_str;

verus! {

/// The sentinel that marks a line of input as a command.
pub const START_CMD: &'static str = ":";

/// Why a command failed.
pub enum CmdError {
    /// Missing sentinel, wrong token count, or an unknown selector keyword.
    WrongFormat,
    /// A base-name argument that is not `hex`, `dec` or `bin`; carries the
    /// offending argument.
    UnknownBase(String),
}

/// The ghost counterpart of [`CmdError`], over character sequences.
pub enum SpecCmdErr {
    WrongFormat,
    UnknownBase(Seq<char>),
}

/// Whether an executable command error matches its ghost counterpart.
pub open spec fn cmd_err_matches(e: CmdError, g: SpecCmdErr) -> bool {
    match e {
        CmdError::WrongFormat => g is WrongFormat,
        CmdError::UnknownBase(n) => g matches SpecCmdErr::UnknownBase(q) && n@ == q,
    }
}

impl CmdError {
    /// A human-readable description of the error.
    pub fn message(&self) -> (r: String)
        ensures
            self is WrongFormat ==> r@ == "Error: wrong command format"@,
            self matches CmdError::UnknownBase(n) ==> r@ == "No type "@ + n@,
    {
        match self {
            CmdError::WrongFormat => "Error: wrong command format".to_owned(),
            CmdError::UnknownBase(n) => "No type ".to_owned().concat(n.as_str()),
        }
    }
}

/// A line of text is a command exactly when it starts with the sentinel.
pub open spec fn is_command_spec(s: Seq<char>) -> bool {
    s.len() > 0 && s[0] == ':'
}

/// The command text proper: the sentinel removed and the rest trimmed.
pub open spec fn command_body(s: Seq<char>) -> Seq<char> {
    trim(s.drop_first())
}

/// Whether a line is a help command: the sentinel followed (up to
/// whitespace) by exactly `h` or `help`.
pub open spec fn is_help_spec(s: Seq<char>) -> bool {
    is_command_spec(s) && (command_body(s) == "h"@ || command_body(s) == "help"@)
}

/// The base that a base-name argument selects, if any; exactly the
/// lower-case names `hex`, `dec` and `bin` are recognized.
pub open spec fn base_of_name(t: Seq<char>) -> Option<Base> {
    if t == "hex"@ {
        Some(Base::Hex)
    } else if t == "dec"@ {
        Some(Base::Dec)
    } else if t == "bin"@ {
        Some(Base::Bin)
    } else {
        None
    }
}

/// One base change applied to a `(input base, output base)` pair: `from`
/// selects the input base, `to` the output base; any other keyword is a
/// format error and an unrecognized base name is an unknown-base error. On
/// error the state is unchanged.
pub open spec fn spec_change(st: (Base, Base), kw: Seq<char>, arg: Seq<char>) -> (
    (Base, Base),
    Result<(), SpecCmdErr>,
) {
    if kw == "from"@ {
        match base_of_name(arg) {
            Some(b) => ((b, st.1), Ok(())),
            None => (st, Err(SpecCmdErr::UnknownBase(arg))),
        }
    } else if kw == "to"@ {
        match base_of_name(arg) {
            Some(b) => ((st.0, b), Ok(())),
            None => (st, Err(SpecCmdErr::UnknownBase(arg))),
        }
    } else {
        (st, Err(SpecCmdErr::WrongFormat))
    }
}

/// The command text split on runs of whitespace into tokens.
pub open spec fn split_ws(s: Seq<char>) -> Seq<Seq<char>>
    decreases s.len(),
{
    if s.len() == 0 {
        Seq::empty()
    } else if is_space(s.first()) {
        split_ws(s.drop_first())
    } else if s.len() >= 2 && !is_space(s[1]) {
        let rest = split_ws(s.drop_first());
        seq![seq![s.first()] + rest.first()] + rest.drop_first()
    } else {
        seq![seq![s.first()]] + split_ws(s.drop_first())
    }
}

/// Splitting text that starts with a non-space character yields at least one
/// token, and the first token starts with that character.
proof fn lemma_split_ws_first(s: Seq<char>)
    requires
        s.len() > 0,
        !is_space(s[0]),
    ensures
        split_ws(s).len() >= 1,
        split_ws(s)[0].len() >= 1,
        split_ws(s)[0][0] == s[0],
    decreases s.len(),
{
    if s.len() >= 2 && !is_space(s[1]) {
        lemma_split_ws_first(s.drop_first());
    }
}

/// What executing a command does to a `(input base, output base)` pair, and
/// what it returns: a line without the sentinel is a format error; a help
/// command succeeds and changes nothing; otherwise the body must split into
/// exactly 2 or 4 tokens, taken as one or two `(keyword, base-name)` base
/// changes applied in order. When the first of two changes succeeds and the
/// second fails, the first stays applied.
pub open spec fn spec_execute(in_b: Base, out_b: Base, s: Seq<char>) -> (
    (Base, Base),
    Result<(), SpecCmdErr>,
) {
    if !is_command_spec(s) {
        ((in_b, out_b), Err(SpecCmdErr::WrongFormat))
    } else {
        let body = command_body(s);
        if body == "h"@ || body == "help"@ {
            ((in_b, out_b), Ok(()))
        } else {
            let toks = split_ws(body);
            if toks.len() != 2 && toks.len() != 4 {
                ((in_b, out_b), Err(SpecCmdErr::WrongFormat))
            } else {
                let first = spec_change((in_b, out_b), toks[0], toks[1]);
                if first.1 is Err || toks.len() == 2 {
                    first
                } else {
                    spec_change(first.0, toks[2], toks[3])
                }
            }
        }
    }
}

/// Executable splitting of `s` from position `i` onward; mirrors
/// [`split_ws`].
fn split_tokens_from(s: &Vec<char>, i: usize) -> (r: Vec<Vec<char>>)
    requires
        i <= s.len(),
    ensures
        r@.len() == split_ws(s@.skip(i as int)).len(),
        forall|j: int| 0 <= j < r@.len() ==> #[trigger] r@[j]@ == split_ws(s@.skip(i as int))[j],
    decreases s.len() - i,
{
    let ghost t = s@.skip(i as int);
    if i == s.len() {
        let r: Vec<Vec<char>> = Vec::new();
        assert(t =~= Seq::<char>::empty());
        r
    } else {
        assert(t.len() == s@.len() - i);
        assert(t[0] == s@[i as int]);
        assert(t.drop_first() =~= s@.skip(i + 1));
        if crate::chars::is_space_char(s[i]) {
            split_tokens_from(s, i + 1)
        } else if i + 1 < s.len() && !crate::chars::is_space_char(s[i + 1]) {
            let ghost spec_rest = split_ws(s@.skip(i + 1));
            let ghost toks = split_ws(t);
            proof {
                assert(t[1] == s@[i + 1]);
                lemma_split_ws_first(s@.skip(i + 1));
                assert(toks == seq![seq![t[0]] + spec_rest[0]] + spec_rest.drop_first());
            }
            let mut rest = split_tokens_from(s, i + 1);
            let ghost rest0 = rest@;
            let mut w = rest.remove(0);
            proof {
                assert(w@ == spec_rest[0]);
            }
            w.insert(0, s[i]);
            rest.insert(0, w);
            proof {
                assert(w@ =~= seq![t[0]] + spec_rest[0]);
                assert(rest@.len() == toks.len());
                assert forall|j: int| 0 <= j < rest@.len() implies #[trigger] rest@[j]@
                    == toks[j] by {
                    if j == 0 {
                        assert(rest@[0] == w);
                        assert(toks[0] == seq![t[0]] + spec_rest[0]);
                    } else {
                        assert(rest@[j] == rest0.remove(0)[j - 1]);
                        assert(rest0.remove(0)[j - 1] == rest0[j]);
                        assert(rest0[j]@ == spec_rest[j]);
                        assert(toks[j] == spec_rest.drop_first()[j - 1]);
                        assert(spec_rest.drop_first()[j - 1] == spec_rest[j]);
                    }
                }
            }
            rest
        } else {
            let ghost spec_rest = split_ws(s@.skip(i + 1));
            let ghost toks = split_ws(t);
            proof {
                assert(toks == seq![seq![t[0]]] + spec_rest);
            }
            let mut rest = split_tokens_from(s, i + 1);
            let mut w: Vec<char> = Vec::new();
            w.push(s[i]);
            rest.insert(0, w);
            proof {
                assert(w@ =~= seq![t[0]]);
                assert(rest@.len() == toks.len());
                assert forall|j: int| 0 <= j < rest@.len() implies #[trigger] rest@[j]@
                    == toks[j] by {
                    if j == 0 {
                        assert(rest@[0] == w);
                        assert(toks[0] == seq![t[0]]);
                    } else {
                        assert(toks[j] == spec_rest[j - 1]);
                    }
                }
            }
            rest
        }
    }
}

/// The session state: the active input and output bases.
pub struct App {
    pub in_base: Base,
    pub out_base: Base,
}

impl App {
    /// A fresh session: input base hexadecimal, output base binary.
    pub fn new() -> (r: Self)
        ensures
            r.in_base == Base::Hex,
            r.out_base == Base::Bin,
    {
        Self { in_base: Base::Hex, out_base: Base::Bin }
    }

    /// The display name of the current input base, for the prompt.
    pub fn get_prompt_label(&self) -> (r: &'static str)
        ensures
            r@ == label_spec(self.in_base),
    {
        self.in_base.label()
    }

    /// The display name of the current output base, for echoed results.
    pub fn output_label(&self) -> (r: &'static str)
        ensures
            r@ == label_spec(self.out_base),
    {
        self.out_base.label()
    }

    /// Whether a line of input is a command: a purely syntactic check for
    /// the sentinel prefix, with no side effect.
    pub fn is_command(&self, cmd: &str) -> (r: bool)
        ensures
            r == is_command_spec(cmd@),
    {
        if cmd.unicode_len() == 0 {
            false
        } else {
            cmd.get_char(0) == ':'
        }
    }

    /// Whether a command is a help request (`:h` or `:help`, up to
    /// surrounding whitespace).
    pub fn is_help(cmd: &str) -> (r: bool)
        ensures
            r == is_help_spec(cmd@),
    {
        let chars = str_to_chars(cmd);
        if chars.len() == 0 {
            return false;
        }
        if chars[0] != ':' {
            return false;
        }
        let tail = suffix_vec(&chars, 1);
        assert(chars@.skip(1) =~= cmd@.drop_first());
        let body = trim_vec(&tail);
        chars_eq_str(&body, "h") || chars_eq_str(&body, "help")
    }

    /// Apply one base change, given as token character sequences.
    fn apply_change(&mut self, kw: &Vec<char>, arg: &Vec<char>) -> (r: Result<(), CmdError>)
        ensures
            ({
                let out = spec_change((old(self).in_base, old(self).out_base), kw@, arg@);
                &&& final(self).in_base == out.0.0
                &&& final(self).out_base == out.0.1
                &&& match r {
                    Ok(()) => out.1 is Ok,
                    Err(e) => out.1 matches Err(g) && cmd_err_matches(e, g),
                }
            }),
    {
        if chars_eq_str(kw, "from") {
            if chars_eq_str(arg, "hex") {
                self.in_base = Base::Hex;
                Ok(())
            } else if chars_eq_str(arg, "dec") {
                self.in_base = Base::Dec;
                Ok(())
            } else if chars_eq_str(arg, "bin") {
                self.in_base = Base::Bin;
                Ok(())
            } else {
                Err(CmdError::UnknownBase(chars_to_string(arg)))
            }
        } else if chars_eq_str(kw, "to") {
            if chars_eq_str(arg, "hex") {
                self.out_base = Base::Hex;
                Ok(())
            } else if chars_eq_str(arg, "dec") {
                self.out_base = Base::Dec;
                Ok(())
            } else if chars_eq_str(arg, "bin") {
                self.out_base = Base::Bin;
                Ok(())
            } else {
                Err(CmdError::UnknownBase(chars_to_string(arg)))
            }
        } else {
            Err(CmdError::WrongFormat)
        }
    }

    /// Apply one base change: `from` sets the input base, `to` the output
    /// base, to the named base.
    pub fn change_base(&mut self, cmd: &str, arg: &str) -> (r: Result<(), CmdError>)
        ensures
            ({
                let out = spec_change((old(self).in_base, old(self).out_base), cmd@, arg@);
                &&& final(self).in_base == out.0.0
                &&& final(self).out_base == out.0.1
                &&& match r {
                    Ok(()) => out.1 is Ok,
                    Err(e) => out.1 matches Err(g) && cmd_err_matches(e, g),
                }
            }),
    {
        let c = str_to_chars(cmd);
        let a = str_to_chars(arg);
        self.apply_change(&c, &a)
    }

    /// Execute a command, per [`spec_execute`]: help requests succeed with
    /// no state change; otherwise the body must hold exactly one or two
    /// `(keyword, base-name)` pairs, applied in order, and a failure in the
    /// second pair does not roll the first back.
    pub fn execute(&mut self, cmd: &str) -> (r: Result<(), CmdError>)
        ensures
            ({
                let out = spec_execute(old(self).in_base, old(self).out_base, cmd@);
                &&& final(self).in_base == out.0.0
                &&& final(self).out_base == out.0.1
                &&& match r {
                    Ok(()) => out.1 is Ok,
                    Err(e) => out.1 matches Err(g) && cmd_err_matches(e, g),
                }
            }),
    {
        let chars = str_to_chars(cmd);
        if chars.len() == 0 {
            return Err(CmdError::WrongFormat);
        }
        if chars[0] != ':' {
            return Err(CmdError::WrongFormat);
        }
        let tail = suffix_vec(&chars, 1);
        assert(chars@.skip(1) =~= cmd@.drop_first());
        let body = trim_vec(&tail);
        if chars_eq_str(&body, "h") || chars_eq_str(&body, "help") {
            return Ok(());
        }
        let toks = split_tokens_from(&body, 0);
        assert(body@.skip(0) =~= body@);
        if !(toks.len() == 2 || toks.len() == 4) {
            return Err(CmdError::WrongFormat);
        }
        let r1 = self.apply_change(&toks[0], &toks[1]);
        match r1 {
            Err(e) => Err(e),
            Ok(()) => {
                if toks.len() == 4 {
                    self.apply_change(&toks[2], &toks[3])
                } else {
                    Ok(())
                }
            },
        }
    }

    /// Convert a line of text: parse it with the current input base, format
    /// the value with the current output base. Fails with exactly the parse
    /// error; formatting never fails.
    pub fn convert(&self, input: &str) -> (r: Result<String, ParseError>)
        ensures
            match parse_spec(self.in_base, input@) {
                Ok(v) => r matches Ok(s) && s@ == format_spec(self.out_base, v),
                Err(e) => r matches Err(e2) && e2 == e,
            },
    {
        match self.in_base.to_num(input) {
            Ok(num) => Ok(self.out_base.from(num)),
            Err(e) => Err(e),
        }
    }
}

/// Partial application of a two-change command: once the first base change
/// succeeds, the command's outcome is exactly the second change's outcome,
/// and if the second change fails the first stays applied (no rollback).
pub proof fn lemma_partial_application(in_b: Base, out_b: Base, s: Seq<char>)
    requires
        is_command_spec(s),
        command_body(s) != "h"@,
        command_body(s) != "help"@,
        split_ws(command_body(s)).len() == 4,
        spec_change(
            (in_b, out_b),
            split_ws(command_body(s))[0],
            split_ws(command_body(s))[1],
        ).1 is Ok,
    ensures
        ({
            let toks = split_ws(command_body(s));
            let first = spec_change((in_b, out_b), toks[0], toks[1]);
            let second = spec_change(first.0, toks[2], toks[3]);
            spec_execute(in_b, out_b, s) == second && (second.1 is Err ==> second.0 == first.0)
        }),
{
}

/// Help invocation changes no session state and always succeeds, whatever
/// the current bases are.
pub proof fn lemma_help_preserves_state(in_b: Base, out_b: Base, s: Seq<char>)
    requires
        is_help_spec(s),
    ensures
        spec_execute(in_b, out_b, s) == ((in_b, out_b), Ok::<(), SpecCmdErr>(())),
{
}

} // verus!
