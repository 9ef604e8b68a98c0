//! The command line: the words of an input line, the registry of command
//! names, and the checks on the arguments of the commands.
use vstd::prelude::*;

use crate::industry::lemma_pushed_only_at_end;
use crate::text::{
    append_str, chars_of, decimal_spec, lemma_decimal_round_trip, lower_seq, parse_usize, parse_usize_spec, seq_eq, split_whitespace, split_ws,
    string_of, to_lower,
};

verus! {

/// What went wrong with a command line.
#[derive(Debug, Clone, PartialEq, Eq)]
pub enum CliError<T> {
    /// The line holds no word.
    NoCommand,
    /// No command has this (lower-cased) name.
    UnknownCommand(T),
    /// A required argument is missing; it holds the message to show.
    MissingArgument(T),
    /// The last argument of `set` is neither `core` nor `nocore`.
    UnknownFlag(T),
    /// `industry` was given an unknown subcommand (lower-cased).
    UnknownIndustrySubcommand(T),
    /// No country has this number or name.
    CountryNotFound(T),
}

pub type SCliError = CliError<Seq<char>>;

impl View for CliError<String> {
    type V = SCliError;

    open spec fn view(&self) -> SCliError {
        match self {
            CliError::NoCommand => CliError::NoCommand,
            CliError::UnknownCommand(t) => CliError::UnknownCommand(t@),
            CliError::MissingArgument(t) => CliError::MissingArgument(t@),
            CliError::UnknownFlag(t) => CliError::UnknownFlag(t@),
            CliError::UnknownIndustrySubcommand(t) => CliError::UnknownIndustrySubcommand(t@),
            CliError::CountryNotFound(t) => CliError::CountryNotFound(t@),
        }
    }
}

fn text_of(s: &str) -> (r: String)
    ensures
        r@ == s@,
{
    string_of(&chars_of(s))
}

/// The message shown for an error.
pub open spec fn cli_message(e: SCliError) -> Seq<char> {
    match e {
        CliError::NoCommand => "コマンドが指定されていません。"@,
        CliError::UnknownCommand(t) => "未知のコマンドです: "@ + t + ". help で一覧を確認してください。"@,
        CliError::MissingArgument(t) => t,
        CliError::UnknownFlag(t) => "未知のフラグです: "@ + t + " (core または nocore を指定してください)"@,
        CliError::UnknownIndustrySubcommand(t) => "未知の industry サブコマンドです: "@ + t,
        CliError::CountryNotFound(t) => "国を特定できませんでした: "@ + t
            + " (番号か完全な国名を入力してください)"@,
    }
}

impl CliError<String> {
    /// The message shown to the player.
    pub fn message(&self) -> (r: String)
        ensures
            r@ == cli_message(self@),
    {
        let mut out: Vec<char> = Vec::new();
        match self {
            CliError::NoCommand => append_str(&mut out, "コマンドが指定されていません。"),
            CliError::UnknownCommand(t) => {
                append_str(&mut out, "未知のコマンドです: ");
                append_str(&mut out, t.as_str());
                append_str(&mut out, ". help で一覧を確認してください。");
            },
            CliError::MissingArgument(t) => append_str(&mut out, t.as_str()),
            CliError::UnknownFlag(t) => {
                append_str(&mut out, "未知のフラグです: ");
                append_str(&mut out, t.as_str());
                append_str(&mut out, " (core または nocore を指定してください)");
            },
            CliError::UnknownIndustrySubcommand(t) => {
                append_str(&mut out, "未知の industry サブコマンドです: ");
                append_str(&mut out, t.as_str());
            },
            CliError::CountryNotFound(t) => {
                append_str(&mut out, "国を特定できませんでした: ");
                append_str(&mut out, t.as_str());
                append_str(&mut out, " (番号か完全な国名を入力してください)");
            },
        }
        assert(out@ =~= cli_message(self@));
        string_of(&out)
    }
}

/// The arguments of a command, taken one by one.
pub struct Args<'a> {
    tokens: Vec<&'a str>,
    index: usize,
}

impl<'a> Args<'a> {
    /// The arguments not yet taken.
    pub closed spec fn rest(self) -> Seq<Seq<char>> {
        self.tokens@.skip(self.index as int).map_values(|t: &str| t@)
    }

    pub closed spec fn wf(self) -> bool {
        self.index <= self.tokens@.len()
    }

    pub fn new(tokens: Vec<&'a str>) -> (r: Args<'a>)
        ensures
            r.wf(),
            r.rest() == tokens@.map_values(|t: &str| t@),
    {
        let r = Args { tokens, index: 0 };
        assert(r.tokens@.skip(0) =~= r.tokens@);
        r
    }

    /// The next argument, if any is left.
    pub fn next(&mut self) -> (r: Option<&'a str>)
        requires
            old(self).wf(),
        ensures
            final(self).wf(),
            old(self).rest().len() == 0 ==> r.is_none() && final(self).rest() == old(self).rest(),
            old(self).rest().len() > 0 ==> (r matches Some(t) && t@ == old(self).rest()[0]
                && final(self).rest() == old(self).rest().drop_first()),
    {
        if self.index >= self.tokens.len() {
            return None;
        }
        let value = self.tokens[self.index];
        self.index = self.index + 1;
        proof {
            let before = old(self).tokens@.skip(old(self).index as int);
            assert(before[0] == value);
            assert(self.tokens@.skip(self.index as int) =~= before.drop_first());
            assert(self.rest() =~= old(self).rest().drop_first());
        }
        Some(value)
    }

    /// The next argument; when none is left, the error holds `message`.
    pub fn next_required(&mut self, message: &str) -> (r: Result<&'a str, CliError<String>>)
        requires
            old(self).wf(),
        ensures
            final(self).wf(),
            old(self).rest().len() == 0 ==> (r matches Err(e) && e@ == CliError::MissingArgument(
                message@,
            ) && final(self).rest() == old(self).rest()),
            old(self).rest().len() > 0 ==> (r matches Ok(t) && t@ == old(self).rest()[0]
                && final(self).rest() == old(self).rest().drop_first()),
    {
        match self.next() {
            Some(t) => Ok(t),
            None => Err(CliError::MissingArgument(text_of(message))),
        }
    }
}

/// The handlers of the commands, by name.
pub struct CommandRegistry<H> {
    handlers: Vec<(&'static str, H)>,
}

pub open spec fn names_of<H>(hs: Seq<(&'static str, H)>) -> Seq<Seq<char>> {
    hs.map_values(|e: (&'static str, H)| e.0@)
}

impl<H> CommandRegistry<H> {
    /// The registered names, in the order of registration.
    pub closed spec fn names(self) -> Seq<Seq<char>> {
        names_of(self.handlers@)
    }

    /// The handler registered under each name.
    pub closed spec fn handlers(self) -> Seq<H> {
        self.handlers@.map_values(|e: (&'static str, H)| e.1)
    }

    pub open spec fn wf(self) -> bool {
        &&& self.names().len() == self.handlers().len()
        &&& forall|i: int, j: int|
            0 <= i < j < self.names().len() ==> self.names()[i] != self.names()[j]
    }

    pub fn new() -> (r: CommandRegistry<H>)
        ensures
            r.wf(),
            r.names().len() == 0,
    {
        let r = CommandRegistry { handlers: Vec::new() };
        assert(r.names() =~= Seq::<Seq<char>>::empty());
        r
    }

    /// Whether a handler is registered under `name`.
    pub fn contains(&self, name: &str) -> (r: bool)
        ensures
            r == self.names().contains(name@),
    {
        self.position(name).is_some()
    }

    fn position(&self, name: &str) -> (r: Option<usize>)
        ensures
            match r {
                Some(i) => i < self.names().len() && self.names()[i as int] == name@,
                None => !self.names().contains(name@),
            },
    {
        let needle = chars_of(name);
        let mut i: usize = 0;
        while i < self.handlers.len()
            invariant
                i <= self.handlers@.len(),
                needle@ == name@,
                forall|k: int| 0 <= k < i ==> self.names()[k] != name@,
            decreases self.handlers@.len() - i,
        {
            assert(self.names()[i as int] == self.handlers@[i as int].0@);
            if seq_eq(&chars_of(self.handlers[i].0), &needle) {
                return Some(i);
            }
            i = i + 1;
        }
        None
    }

    /// Registers a handler under a name that is not yet registered.
    pub fn register(&mut self, name: &'static str, handler: H)
        requires
            old(self).wf(),
            !old(self).names().contains(name@),
        ensures
            final(self).wf(),
            final(self).names() == old(self).names().push(name@),
            final(self).handlers() == old(self).handlers().push(handler),
    {
        self.handlers.push((name, handler));
        proof {
            assert(self.names() =~= old(self).names().push(name@));
            assert(self.handlers() =~= old(self).handlers().push(handler));
        }
    }

    /// The handler registered under `command`.
    pub fn dispatch(&self, command: &str) -> (r: Result<&H, CliError<String>>)
        requires
            self.wf(),
        ensures
            self.names().contains(command@) ==> (r matches Ok(h) && exists|i: int|
                0 <= i < self.names().len() && self.names()[i] == command@ && *h
                    == self.handlers()[i]),
            !self.names().contains(command@) ==> (r matches Err(e) && e@
                == CliError::UnknownCommand(command@)),
    {
        match self.position(command) {
            Some(i) => {
                let h = &self.handlers[i].1;
                assert(*h == self.handlers()[i as int]);
                Ok(h)
            },
            None => Err(CliError::UnknownCommand(text_of(command))),
        }
    }

    /// Splits an input line into words: the first, lower-cased, names the
    /// command; the others are its arguments.
    pub fn execute_input<'a>(&self, input: &'a str) -> (r: Result<(&H, Args<'a>), CliError<String>>)
        requires
            self.wf(),
        ensures
            split_ws(input@).len() == 0 ==> (r matches Err(e) && e@ == CliError::<Seq<char>>::NoCommand),
            split_ws(input@).len() > 0 ==> {
                let head = lower_seq(split_ws(input@)[0]);
                &&& self.names().contains(head) ==> (r matches Ok(
                    (h, args),
                ) && args.wf() && args.rest() == split_ws(input@).drop_first() && exists|i: int|
                    0 <= i < self.names().len() && self.names()[i] == head && *h
                        == self.handlers()[i])
                &&& !self.names().contains(head) ==> (r matches Err(e) && e@
                    == CliError::UnknownCommand(head))
            },
    {
        let words = split_whitespace(input);
        if words.len() == 0 {
            return Err(CliError::NoCommand);
        }
        let head = string_of(&to_lower(&chars_of(words[0])));
        let handler = match self.dispatch(head.as_str()) {
            Ok(h) => h,
            Err(e) => {
                return Err(e);
            },
        };
        let mut rest: Vec<&'a str> = Vec::new();
        let mut i: usize = 1;
        while i < words.len()
            invariant
                1 <= i <= words@.len(),
                rest@ == words@.subrange(1, i as int),
            decreases words@.len() - i,
        {
            rest.push(words[i]);
            i = i + 1;
        }
        let args = Args::new(rest);
        proof {
            assert(words@[0]@ == split_ws(input@)[0]);
            assert(rest@.map_values(|t: &str| t@) =~= split_ws(input@).drop_first());
        }
        Ok((handler, args))
    }
}

/// The commands of the command line.
#[derive(Debug, Clone, Copy, PartialEq, Eq, Structural)]
pub enum Command {
    /// `help` or `?`.
    Help,
    /// `overview` or `ov`.
    Overview,
    /// `inspect` or `show`.
    Inspect,
    /// `set`: the budget allocations of a country.
    SetAllocations,
    /// `tick`.
    Tick,
    /// `speed`.
    Speed,
    /// `industry`.
    Industry,
    /// `quit` or `exit`.
    Quit,
}

/// The command that a lower-cased word names, if any.
pub open spec fn command_spec(word: Seq<char>) -> Option<Command> {
    if word == "help"@ || word == "?"@ {
        Some(Command::Help)
    } else if word == "overview"@ || word == "ov"@ {
        Some(Command::Overview)
    } else if word == "inspect"@ || word == "show"@ {
        Some(Command::Inspect)
    } else if word == "set"@ {
        Some(Command::SetAllocations)
    } else if word == "tick"@ {
        Some(Command::Tick)
    } else if word == "speed"@ {
        Some(Command::Speed)
    } else if word == "industry"@ {
        Some(Command::Industry)
    } else if word == "quit"@ || word == "exit"@ {
        Some(Command::Quit)
    } else {
        None
    }
}

/// The command that `word` names, ASCII case ignored.
pub fn command_for(word: &str) -> (r: Option<Command>)
    ensures
        r == command_spec(lower_seq(word@)),
{
    let w = to_lower(&chars_of(word));
    if seq_eq(&w, &chars_of("help")) || seq_eq(&w, &chars_of("?")) {
        Some(Command::Help)
    } else if seq_eq(&w, &chars_of("overview")) || seq_eq(&w, &chars_of("ov")) {
        Some(Command::Overview)
    } else if seq_eq(&w, &chars_of("inspect")) || seq_eq(&w, &chars_of("show")) {
        Some(Command::Inspect)
    } else if seq_eq(&w, &chars_of("set")) {
        Some(Command::SetAllocations)
    } else if seq_eq(&w, &chars_of("tick")) {
        Some(Command::Tick)
    } else if seq_eq(&w, &chars_of("speed")) {
        Some(Command::Speed)
    } else if seq_eq(&w, &chars_of("industry")) {
        Some(Command::Industry)
    } else if seq_eq(&w, &chars_of("quit")) || seq_eq(&w, &chars_of("exit")) {
        Some(Command::Quit)
    } else {
        None
    }
}

/// Reads an input line: its first word, lower-cased, names the command and
/// the other words are its arguments.  A line with no word, or whose first
/// word names no command, is refused.
pub fn parse_command_line<'a>(input: &'a str) -> (r: Result<(Command, Args<'a>), CliError<String>>)
    ensures
        split_ws(input@).len() == 0 ==> (r matches Err(e) && e@ == CliError::<Seq<char>>::NoCommand),
        split_ws(input@).len() > 0 ==> {
            let head = lower_seq(split_ws(input@)[0]);
            match command_spec(head) {
                Some(c) => r matches Ok((command, args)) && command == c && args.wf() && args.rest()
                    == split_ws(input@).drop_first(),
                None => r matches Err(e) && e@ == CliError::UnknownCommand(head),
            }
        },
{
    let words = split_whitespace(input);
    if words.len() == 0 {
        return Err(CliError::NoCommand);
    }
    let head = to_lower(&chars_of(words[0]));
    let command = match command_for(words[0]) {
        Some(c) => c,
        None => {
            return Err(CliError::UnknownCommand(string_of(&head)));
        },
    };
    let mut rest: Vec<&'a str> = Vec::new();
    let mut i: usize = 1;
    while i < words.len()
        invariant
            1 <= i <= words@.len(),
            rest@ == words@.subrange(1, i as int),
        decreases words@.len() - i,
    {
        rest.push(words[i]);
        i = i + 1;
    }
    let args = Args::new(rest);
    proof {
        assert(words@[0]@ == split_ws(input@)[0]);
        assert(rest@.map_values(|t: &str| t@) =~= split_ws(input@).drop_first());
    }
    Ok((command, args))
}

/// The last argument of `set`: `core` (the default when absent) or `nocore`,
/// ASCII case ignored.
pub fn parse_core_flag(flag: Option<&str>) -> (r: Result<bool, CliError<String>>)
    ensures
        match flag {
            None => r == Ok::<bool, CliError<String>>(true),
            Some(f) => if lower_seq(f@) == "core"@ {
                r == Ok::<bool, CliError<String>>(true)
            } else if lower_seq(f@) == "nocore"@ {
                r == Ok::<bool, CliError<String>>(false)
            } else {
                r matches Err(e) && e@ == CliError::UnknownFlag(f@)
            },
        },
{
    match flag {
        None => Ok(true),
        Some(f) => {
            let lowered = to_lower(&chars_of(f));
            if seq_eq(&lowered, &chars_of("core")) {
                Ok(true)
            } else if seq_eq(&lowered, &chars_of("nocore")) {
                Ok(false)
            } else {
                Err(CliError::UnknownFlag(text_of(f)))
            }
        },
    }
}

/// The subcommands of `industry`.
#[derive(Debug, Clone, Copy, PartialEq, Eq, Structural)]
pub enum IndustrySubcommand {
    Subsidize,
}

/// The `industry` subcommand named by `word`, ASCII case ignored.
pub fn parse_industry_subcommand(word: &str) -> (r: Result<IndustrySubcommand, CliError<String>>)
    ensures
        lower_seq(word@) == "subsidize"@ ==> r == Ok::<IndustrySubcommand, CliError<String>>(
            IndustrySubcommand::Subsidize,
        ),
        lower_seq(word@) != "subsidize"@ ==> (r matches Err(e) && e@
            == CliError::UnknownIndustrySubcommand(lower_seq(word@))),
{
    let lowered = to_lower(&chars_of(word));
    if seq_eq(&lowered, &chars_of("subsidize")) {
        Ok(IndustrySubcommand::Subsidize)
    } else {
        Err(CliError::UnknownIndustrySubcommand(string_of(&lowered)))
    }
}

/// The named speeds that `speed` accepts.
#[derive(Debug, Clone, Copy, PartialEq, Eq, Structural)]
pub enum SpeedPreset {
    /// `slow` or `low`.
    Slow,
    /// `normal`, `std` or `standard`.
    Normal,
    /// `fast` or `high`.
    Fast,
    /// `max`.
    Max,
}

pub open spec fn speed_preset_spec(t: Seq<char>) -> Option<SpeedPreset> {
    if t == "slow"@ || t == "low"@ {
        Some(SpeedPreset::Slow)
    } else if t == "normal"@ || t == "std"@ || t == "standard"@ {
        Some(SpeedPreset::Normal)
    } else if t == "fast"@ || t == "high"@ {
        Some(SpeedPreset::Fast)
    } else if t == "max"@ {
        Some(SpeedPreset::Max)
    } else {
        None
    }
}

/// The named speed that `token` gives, ASCII case ignored; a number is none.
pub fn speed_preset(token: &str) -> (r: Option<SpeedPreset>)
    ensures
        r == speed_preset_spec(lower_seq(token@)),
{
    let t = to_lower(&chars_of(token));
    if seq_eq(&t, &chars_of("slow")) || seq_eq(&t, &chars_of("low")) {
        Some(SpeedPreset::Slow)
    } else if seq_eq(&t, &chars_of("normal")) || seq_eq(&t, &chars_of("std")) || seq_eq(
        &t,
        &chars_of("standard"),
    ) {
        Some(SpeedPreset::Normal)
    } else if seq_eq(&t, &chars_of("fast")) || seq_eq(&t, &chars_of("high")) {
        Some(SpeedPreset::Fast)
    } else if seq_eq(&t, &chars_of("max")) {
        Some(SpeedPreset::Max)
    } else {
        None
    }
}

/// The speed words: `slow` and `low` name the slow speed, `normal`, `std` and
/// `standard` the normal one, `fast` and `high` the fast one (so `fast` and
/// `high` name the same speed), `max` the highest, and no other word names a
/// speed.
pub proof fn lemma_speed_words(t: Seq<char>)
    ensures
        speed_preset_spec(t) == Some(SpeedPreset::Slow) <==> (t == "slow"@ || t == "low"@),
        speed_preset_spec(t) == Some(SpeedPreset::Normal) <==> (t == "normal"@ || t == "std"@ || t
            == "standard"@),
        speed_preset_spec(t) == Some(SpeedPreset::Fast) <==> (t == "fast"@ || t == "high"@),
        speed_preset_spec(t) == Some(SpeedPreset::Max) <==> t == "max"@,
        speed_preset_spec(t) is None <==> !(t == "slow"@ || t == "low"@ || t == "normal"@ || t
            == "std"@ || t == "standard"@ || t == "fast"@ || t == "high"@ || t == "max"@),
        speed_preset_spec("fast"@) == speed_preset_spec("high"@),
{
    reveal_strlit("slow");
    reveal_strlit("low");
    reveal_strlit("normal");
    reveal_strlit("std");
    reveal_strlit("standard");
    reveal_strlit("fast");
    reveal_strlit("high");
    reveal_strlit("max");
    assert("slow"@ != "low"@) by {
        assert("slow"@.len() != "low"@.len());
    }
    assert("slow"@ != "normal"@) by {
        assert("slow"@.len() != "normal"@.len());
    }
    assert("slow"@ != "std"@) by {
        assert("slow"@.len() != "std"@.len());
    }
    assert("slow"@ != "standard"@) by {
        assert("slow"@.len() != "standard"@.len());
    }
    assert("slow"@ != "fast"@) by {
        assert("slow"@[0] != "fast"@[0]);
    }
    assert("slow"@ != "high"@) by {
        assert("slow"@[0] != "high"@[0]);
    }
    assert("slow"@ != "max"@) by {
        assert("slow"@.len() != "max"@.len());
    }
    assert("low"@ != "normal"@) by {
        assert("low"@.len() != "normal"@.len());
    }
    assert("low"@ != "std"@) by {
        assert("low"@[0] != "std"@[0]);
    }
    assert("low"@ != "standard"@) by {
        assert("low"@.len() != "standard"@.len());
    }
    assert("low"@ != "fast"@) by {
        assert("low"@.len() != "fast"@.len());
    }
    assert("low"@ != "high"@) by {
        assert("low"@.len() != "high"@.len());
    }
    assert("low"@ != "max"@) by {
        assert("low"@[0] != "max"@[0]);
    }
    assert("normal"@ != "std"@) by {
        assert("normal"@.len() != "std"@.len());
    }
    assert("normal"@ != "standard"@) by {
        assert("normal"@.len() != "standard"@.len());
    }
    assert("normal"@ != "fast"@) by {
        assert("normal"@.len() != "fast"@.len());
    }
    assert("normal"@ != "high"@) by {
        assert("normal"@.len() != "high"@.len());
    }
    assert("normal"@ != "max"@) by {
        assert("normal"@.len() != "max"@.len());
    }
    assert("std"@ != "standard"@) by {
        assert("std"@.len() != "standard"@.len());
    }
    assert("std"@ != "fast"@) by {
        assert("std"@.len() != "fast"@.len());
    }
    assert("std"@ != "high"@) by {
        assert("std"@.len() != "high"@.len());
    }
    assert("std"@ != "max"@) by {
        assert("std"@[0] != "max"@[0]);
    }
    assert("standard"@ != "fast"@) by {
        assert("standard"@.len() != "fast"@.len());
    }
    assert("standard"@ != "high"@) by {
        assert("standard"@.len() != "high"@.len());
    }
    assert("standard"@ != "max"@) by {
        assert("standard"@.len() != "max"@.len());
    }
    assert("fast"@ != "high"@) by {
        assert("fast"@[0] != "high"@[0]);
    }
    assert("fast"@ != "max"@) by {
        assert("fast"@.len() != "max"@.len());
    }
    assert("high"@ != "max"@) by {
        assert("high"@.len() != "max"@.len());
    }
}

/// The command words: `help` and `?` ask for help, `overview` and `ov` for
/// the overview, `inspect` and `show` for a country's details, `set` sets
/// allocations, `tick` moves time on, `speed` sets the speed, `industry`
/// acts on sectors, and `quit` and `exit` end the program; no other word is a
/// command.
pub proof fn lemma_command_words(w: Seq<char>)
    ensures
        command_spec(w) == Some(Command::Help) <==> (w == "help"@ || w == "?"@),
        command_spec(w) == Some(Command::Overview) <==> (w == "overview"@ || w == "ov"@),
        command_spec(w) == Some(Command::Inspect) <==> (w == "inspect"@ || w == "show"@),
        command_spec(w) == Some(Command::SetAllocations) <==> w == "set"@,
        command_spec(w) == Some(Command::Tick) <==> w == "tick"@,
        command_spec(w) == Some(Command::Speed) <==> w == "speed"@,
        command_spec(w) == Some(Command::Industry) <==> w == "industry"@,
        command_spec(w) == Some(Command::Quit) <==> (w == "quit"@ || w == "exit"@),
{
    reveal_strlit("help");
    reveal_strlit("?");
    reveal_strlit("overview");
    reveal_strlit("ov");
    reveal_strlit("inspect");
    reveal_strlit("show");
    reveal_strlit("set");
    reveal_strlit("tick");
    reveal_strlit("speed");
    reveal_strlit("industry");
    reveal_strlit("quit");
    reveal_strlit("exit");
    assert("help"@ != "?"@) by {
        assert("help"@.len() != "?"@.len());
    }
    assert("help"@ != "overview"@) by {
        assert("help"@.len() != "overview"@.len());
    }
    assert("help"@ != "ov"@) by {
        assert("help"@.len() != "ov"@.len());
    }
    assert("help"@ != "inspect"@) by {
        assert("help"@.len() != "inspect"@.len());
    }
    assert("help"@ != "show"@) by {
        assert("help"@[0] != "show"@[0]);
    }
    assert("help"@ != "set"@) by {
        assert("help"@.len() != "set"@.len());
    }
    assert("help"@ != "tick"@) by {
        assert("help"@[0] != "tick"@[0]);
    }
    assert("help"@ != "speed"@) by {
        assert("help"@.len() != "speed"@.len());
    }
    assert("help"@ != "industry"@) by {
        assert("help"@.len() != "industry"@.len());
    }
    assert("help"@ != "quit"@) by {
        assert("help"@[0] != "quit"@[0]);
    }
    assert("help"@ != "exit"@) by {
        assert("help"@[0] != "exit"@[0]);
    }
    assert("?"@ != "overview"@) by {
        assert("?"@.len() != "overview"@.len());
    }
    assert("?"@ != "ov"@) by {
        assert("?"@.len() != "ov"@.len());
    }
    assert("?"@ != "inspect"@) by {
        assert("?"@.len() != "inspect"@.len());
    }
    assert("?"@ != "show"@) by {
        assert("?"@.len() != "show"@.len());
    }
    assert("?"@ != "set"@) by {
        assert("?"@.len() != "set"@.len());
    }
    assert("?"@ != "tick"@) by {
        assert("?"@.len() != "tick"@.len());
    }
    assert("?"@ != "speed"@) by {
        assert("?"@.len() != "speed"@.len());
    }
    assert("?"@ != "industry"@) by {
        assert("?"@.len() != "industry"@.len());
    }
    assert("?"@ != "quit"@) by {
        assert("?"@.len() != "quit"@.len());
    }
    assert("?"@ != "exit"@) by {
        assert("?"@.len() != "exit"@.len());
    }
    assert("overview"@ != "ov"@) by {
        assert("overview"@.len() != "ov"@.len());
    }
    assert("overview"@ != "inspect"@) by {
        assert("overview"@.len() != "inspect"@.len());
    }
    assert("overview"@ != "show"@) by {
        assert("overview"@.len() != "show"@.len());
    }
    assert("overview"@ != "set"@) by {
        assert("overview"@.len() != "set"@.len());
    }
    assert("overview"@ != "tick"@) by {
        assert("overview"@.len() != "tick"@.len());
    }
    assert("overview"@ != "speed"@) by {
        assert("overview"@.len() != "speed"@.len());
    }
    assert("overview"@ != "industry"@) by {
        assert("overview"@[0] != "industry"@[0]);
    }
    assert("overview"@ != "quit"@) by {
        assert("overview"@.len() != "quit"@.len());
    }
    assert("overview"@ != "exit"@) by {
        assert("overview"@.len() != "exit"@.len());
    }
    assert("ov"@ != "inspect"@) by {
        assert("ov"@.len() != "inspect"@.len());
    }
    assert("ov"@ != "show"@) by {
        assert("ov"@.len() != "show"@.len());
    }
    assert("ov"@ != "set"@) by {
        assert("ov"@.len() != "set"@.len());
    }
    assert("ov"@ != "tick"@) by {
        assert("ov"@.len() != "tick"@.len());
    }
    assert("ov"@ != "speed"@) by {
        assert("ov"@.len() != "speed"@.len());
    }
    assert("ov"@ != "industry"@) by {
        assert("ov"@.len() != "industry"@.len());
    }
    assert("ov"@ != "quit"@) by {
        assert("ov"@.len() != "quit"@.len());
    }
    assert("ov"@ != "exit"@) by {
        assert("ov"@.len() != "exit"@.len());
    }
    assert("inspect"@ != "show"@) by {
        assert("inspect"@.len() != "show"@.len());
    }
    assert("inspect"@ != "set"@) by {
        assert("inspect"@.len() != "set"@.len());
    }
    assert("inspect"@ != "tick"@) by {
        assert("inspect"@.len() != "tick"@.len());
    }
    assert("inspect"@ != "speed"@) by {
        assert("inspect"@.len() != "speed"@.len());
    }
    assert("inspect"@ != "industry"@) by {
        assert("inspect"@.len() != "industry"@.len());
    }
    assert("inspect"@ != "quit"@) by {
        assert("inspect"@.len() != "quit"@.len());
    }
    assert("inspect"@ != "exit"@) by {
        assert("inspect"@.len() != "exit"@.len());
    }
    assert("show"@ != "set"@) by {
        assert("show"@.len() != "set"@.len());
    }
    assert("show"@ != "tick"@) by {
        assert("show"@[0] != "tick"@[0]);
    }
    assert("show"@ != "speed"@) by {
        assert("show"@.len() != "speed"@.len());
    }
    assert("show"@ != "industry"@) by {
        assert("show"@.len() != "industry"@.len());
    }
    assert("show"@ != "quit"@) by {
        assert("show"@[0] != "quit"@[0]);
    }
    assert("show"@ != "exit"@) by {
        assert("show"@[0] != "exit"@[0]);
    }
    assert("set"@ != "tick"@) by {
        assert("set"@.len() != "tick"@.len());
    }
    assert("set"@ != "speed"@) by {
        assert("set"@.len() != "speed"@.len());
    }
    assert("set"@ != "industry"@) by {
        assert("set"@.len() != "industry"@.len());
    }
    assert("set"@ != "quit"@) by {
        assert("set"@.len() != "quit"@.len());
    }
    assert("set"@ != "exit"@) by {
        assert("set"@.len() != "exit"@.len());
    }
    assert("tick"@ != "speed"@) by {
        assert("tick"@.len() != "speed"@.len());
    }
    assert("tick"@ != "industry"@) by {
        assert("tick"@.len() != "industry"@.len());
    }
    assert("tick"@ != "quit"@) by {
        assert("tick"@[0] != "quit"@[0]);
    }
    assert("tick"@ != "exit"@) by {
        assert("tick"@[0] != "exit"@[0]);
    }
    assert("speed"@ != "industry"@) by {
        assert("speed"@.len() != "industry"@.len());
    }
    assert("speed"@ != "quit"@) by {
        assert("speed"@.len() != "quit"@.len());
    }
    assert("speed"@ != "exit"@) by {
        assert("speed"@.len() != "exit"@.len());
    }
    assert("industry"@ != "quit"@) by {
        assert("industry"@.len() != "quit"@.len());
    }
    assert("industry"@ != "exit"@) by {
        assert("industry"@.len() != "exit"@.len());
    }
    assert("quit"@ != "exit"@) by {
        assert("quit"@[0] != "exit"@[0]);
    }
}

/// The country that `token` names: its number from 1 if it is one within
/// range, else the first country whose name equals it with ASCII case ignored.
pub open spec fn country_index_spec(names: Seq<Seq<char>>, token: Seq<char>) -> Option<int> {
    match parse_usize_spec(token) {
        Some(id) if 1 <= id <= names.len() => Some(id - 1),
        _ => first_name_match(names, lower_seq(token), 0),
    }
}

pub open spec fn first_name_match(names: Seq<Seq<char>>, lowered: Seq<char>, from: int) -> Option<int>
    decreases names.len() - from,
{
    if from >= names.len() || from < 0 {
        None
    } else if lower_seq(names[from]) == lowered {
        Some(from)
    } else {
        first_name_match(names, lowered, from + 1)
    }
}

/// Finds the country that `token` names (see `country_index_spec`).
pub fn find_country_index(names: &Vec<String>, token: &str) -> (r: Option<usize>)
    ensures
        match country_index_spec(names@.map_values(|s: String| s@), token@) {
            Some(k) => r matches Some(i) && i as int == k,
            None => r.is_none(),
        },
{
    let ghost ns = names@.map_values(|s: String| s@);
    let tok = chars_of(token);
    match parse_usize(&tok) {
        Some(id) => {
            if id > 0 && id <= names.len() {
                return Some(id - 1);
            }
        },
        None => {},
    }
    let lowered = to_lower(&tok);
    let mut i: usize = 0;
    assert(country_index_spec(ns, token@) == first_name_match(ns, lower_seq(token@), 0));
    while i < names.len()
        invariant
            i <= names@.len(),
            ns == names@.map_values(|s: String| s@),
            country_index_spec(ns, token@) == first_name_match(ns, lower_seq(token@), 0),
            lowered@ == lower_seq(token@),
            first_name_match(ns, lowered@, 0) == first_name_match(ns, lowered@, i as int),
        decreases names@.len() - i,
    {
        assert(ns[i as int] == names@[i as int]@);
        if seq_eq(&to_lower(&chars_of(names[i].as_str())), &lowered) {
            return Some(i);
        }
        i = i + 1;
    }
    None
}

/// Resolves a country token, or says that none matches.
pub fn resolve_country_index(names: &Vec<String>, token: &str) -> (r: Result<usize, CliError<String>>)
    ensures
        match country_index_spec(names@.map_values(|s: String| s@), token@) {
            Some(k) => r matches Ok(i) && i as int == k,
            None => r matches Err(e) && e@ == CliError::CountryNotFound(token@),
        },
{
    match find_country_index(names, token) {
        Some(i) => Ok(i),
        None => Err(CliError::CountryNotFound(text_of(token))),
    }
}

pub struct HelpCommand;

pub struct HelpAliasCommand;

pub struct OverviewCommand;

pub struct OverviewAliasCommand;

pub struct InspectCommand;

pub struct ShowCommand;

pub struct SetCommand;

pub struct TickCommand;

pub struct SpeedCommand;

pub struct IndustryCommand;

pub struct QuitCommand;

pub struct ExitCommand;

impl HelpCommand {
    pub fn name() -> (r: &'static str)
        ensures
            r@ == "help"@,
    {
        "help"
    }
}

impl HelpAliasCommand {
    pub fn name() -> (r: &'static str)
        ensures
            r@ == "?"@,
    {
        "?"
    }
}

impl OverviewCommand {
    pub fn name() -> (r: &'static str)
        ensures
            r@ == "overview"@,
    {
        "overview"
    }
}

impl OverviewAliasCommand {
    pub fn name() -> (r: &'static str)
        ensures
            r@ == "ov"@,
    {
        "ov"
    }
}

impl InspectCommand {
    pub fn name() -> (r: &'static str)
        ensures
            r@ == "inspect"@,
    {
        "inspect"
    }
}

impl ShowCommand {
    pub fn name() -> (r: &'static str)
        ensures
            r@ == "show"@,
    {
        "show"
    }
}

impl SetCommand {
    pub fn name() -> (r: &'static str)
        ensures
            r@ == "set"@,
    {
        "set"
    }
}

impl TickCommand {
    pub fn name() -> (r: &'static str)
        ensures
            r@ == "tick"@,
    {
        "tick"
    }
}

impl SpeedCommand {
    pub fn name() -> (r: &'static str)
        ensures
            r@ == "speed"@,
    {
        "speed"
    }
}

impl IndustryCommand {
    pub fn name() -> (r: &'static str)
        ensures
            r@ == "industry"@,
    {
        "industry"
    }
}

impl QuitCommand {
    pub fn name() -> (r: &'static str)
        ensures
            r@ == "quit"@,
    {
        "quit"
    }
}

impl ExitCommand {
    pub fn name() -> (r: &'static str)
        ensures
            r@ == "exit"@,
    {
        "exit"
    }
}

/// A handler registered under a name is the one that dispatching that name
/// finds: in the registry after `register`, the one place that holds the
/// name holds the handler.
pub proof fn lemma_dispatch_after_register<H>(
    before: CommandRegistry<H>,
    after: CommandRegistry<H>,
    name: Seq<char>,
    handler: H,
    i: int,
)
    requires
        after.wf(),
        after.names() == before.names().push(name),
        after.handlers() == before.handlers().push(handler),
        0 <= i < after.names().len(),
        after.names()[i] == name,
    ensures
        after.handlers()[i] == handler,
{
    lemma_pushed_only_at_end(before.names(), name, i);
}

/// A country's number from 1, written in decimal, selects that country.
pub proof fn lemma_number_selects_country(names: Seq<Seq<char>>, n: nat)
    requires
        1 <= n <= names.len(),
        names.len() <= usize::MAX,
    ensures
        country_index_spec(names, decimal_spec(n)) == Some(n - 1),
{
    lemma_decimal_round_trip(n);
    assert(parse_usize_spec(decimal_spec(n)) == Some(n as usize));
}

} // verus!
