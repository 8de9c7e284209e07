//! The commands, and how a frame is read as one of them.

pub mod get;
pub mod publish;
pub mod set;
pub mod subscribe;
pub mod unsubscribe;

use crate::cmd::get::{spec_parse_get, Get, GetView};
use crate::cmd::publish::{spec_parse_publish, Publish, PublishView};
use crate::cmd::set::{spec_parse_set, SetCommand, SetView};
use crate::cmd::subscribe::{spec_parse_subscribe, Subscribe, SubscribeView};
use crate::cmd::unsubscribe::{spec_parse_unsubscribe, Unsubscribe, UnsubscribeView};
use crate::frame::{Frame, FrameView};
use crate::parse::{
    all_bulk, is_other, payloads, take_string, Outcome, Parse, ParseError, MSG_NOT_ARRAY,
    MSG_NOT_BULK,
};
use crate::text::{is_word, str_is_word};
use vstd::prelude::*;
use vstd::string::StringExecFns;

verus! {

#[derive(Debug)]
pub enum Command {
    Get(Get),
    SetValue(SetCommand),
    Publish(Publish),
    Subscribe(Subscribe),
    Unsubscribe(Unsubscribe),
}

pub enum CommandView {
    Get(GetView),
    SetValue(SetView),
    Publish(PublishView),
    Subscribe(SubscribeView),
    Unsubscribe(UnsubscribeView),
}

impl View for Command {
    type V = CommandView;

    open spec fn view(&self) -> CommandView {
        match self {
            Command::Get(c) => CommandView::Get(c@),
            Command::SetValue(c) => CommandView::SetValue(c@),
            Command::Publish(c) => CommandView::Publish(c@),
            Command::Subscribe(c) => CommandView::Subscribe(c@),
            Command::Unsubscribe(c) => CommandView::Unsubscribe(c@),
        }
    }
}

/// The outcome `o`, with what was read turned into a command.
pub open spec fn lift<A>(o: Outcome<A>, wrap: spec_fn(A) -> CommandView) -> Outcome<CommandView> {
    match o {
        Outcome::Done { value, rest } => Outcome::Done { value: wrap(value), rest },
        Outcome::EndOfStream => Outcome::EndOfStream,
        Outcome::TrailingArguments => Outcome::TrailingArguments,
        Outcome::Other(m) => Outcome::Other(m),
    }
}

/// The outcome `o`, where arguments that are left over are an error.
pub open spec fn finished(o: Outcome<CommandView>) -> Outcome<CommandView> {
    match o {
        Outcome::Done { value, rest } => if rest.len() == 0 {
            o
        } else {
            Outcome::TrailingArguments
        },
        _ => o,
    }
}

/// What a peer is told of a command that does not exist.
pub open spec fn unknown_command(name: Seq<char>) -> Seq<char> {
    "ERR unknown command '"@ + name + "'"@
}

/// The command with the name `name` and the arguments `args`. The name
/// counts in any mix of small and capital letters.
pub open spec fn spec_dispatch(name: Seq<char>, args: Seq<Seq<u8>>) -> Outcome<CommandView> {
    if is_word(name, "get"@) {
        finished(lift(spec_parse_get(args), |c: GetView| CommandView::Get(c)))
    } else if is_word(name, "set"@) {
        finished(lift(spec_parse_set(args), |c: SetView| CommandView::SetValue(c)))
    } else if is_word(name, "publish"@) {
        finished(lift(spec_parse_publish(args), |c: PublishView| CommandView::Publish(c)))
    } else if is_word(name, "subscribe"@) {
        finished(lift(spec_parse_subscribe(args), |c: SubscribeView| CommandView::Subscribe(c)))
    } else if is_word(name, "unsubscribe"@) {
        finished(
            lift(spec_parse_unsubscribe(args), |c: UnsubscribeView| CommandView::Unsubscribe(c)),
        )
    } else {
        Outcome::Other(unknown_command(name))
    }
}

/// The command that a frame stands for: an array of bulk frames, of which
/// the first is the command's name and the others are its arguments.
pub open spec fn spec_command(f: FrameView) -> Outcome<CommandView> {
    match f {
        FrameView::Array(a) => if all_bulk(a) {
            match take_string(payloads(a)) {
                Outcome::Done { value: name, rest } => spec_dispatch(name, rest),
                Outcome::EndOfStream => Outcome::EndOfStream,
                Outcome::TrailingArguments => Outcome::TrailingArguments,
                Outcome::Other(m) => Outcome::Other(m),
            }
        } else {
            Outcome::Other(MSG_NOT_BULK@)
        },
        _ => Outcome::Other(MSG_NOT_ARRAY@),
    }
}

/// Whether the result `r` says what `o` says.
pub open spec fn command_is(r: Result<Command, ParseError>, o: Outcome<CommandView>) -> bool {
    match o {
        Outcome::Done { value, rest } => r matches Ok(c) && c@ == value,
        Outcome::EndOfStream => r matches Err(ParseError::EndOfStream),
        Outcome::TrailingArguments => r matches Err(ParseError::TrailingArguments),
        Outcome::Other(m) => is_other(r, m),
    }
}

impl Command {
    /// Reads a frame as a command.
    pub fn from_frame(frame: Frame) -> (r: Result<Command, ParseError>)
        ensures
            command_is(r, spec_command(frame@)),
    {
        let mut parse = match Parse::new(frame) {
            Ok(parse) => parse,
            Err(e) => {
                return Err(e);
            },
        };
        let name = match parse.next_string() {
            Ok(name) => name,
            Err(e) => {
                return Err(e);
            },
        };
        let command = if str_is_word(name.as_str(), "get") {
            match Get::parse_frames(&mut parse) {
                Ok(c) => Command::Get(c),
                Err(e) => {
                    return Err(e);
                },
            }
        } else if str_is_word(name.as_str(), "set") {
            match SetCommand::parse_frames(&mut parse) {
                Ok(c) => Command::SetValue(c),
                Err(e) => {
                    return Err(e);
                },
            }
        } else if str_is_word(name.as_str(), "publish") {
            match Publish::parse_frames(&mut parse) {
                Ok(c) => Command::Publish(c),
                Err(e) => {
                    return Err(e);
                },
            }
        } else if str_is_word(name.as_str(), "subscribe") {
            match Subscribe::parse_frames(&mut parse) {
                Ok(c) => Command::Subscribe(c),
                Err(e) => {
                    return Err(e);
                },
            }
        } else if str_is_word(name.as_str(), "unsubscribe") {
            match Unsubscribe::parse_frames(&mut parse) {
                Ok(c) => Command::Unsubscribe(c),
                Err(e) => {
                    return Err(e);
                },
            }
        } else {
            let text = "ERR unknown command '".to_owned().concat(name.as_str()).concat("'");
            return Err(ParseError::Other(text));
        };
        match parse.finish() {
            Ok(()) => Ok(command),
            Err(e) => Err(e),
        }
    }

    /// The name of the command, in small letters.
    pub fn get_name(&self) -> (name: &'static str)
        ensures
            name@ == match self@ {
                CommandView::Get(_) => "get"@,
                CommandView::SetValue(_) => "set"@,
                CommandView::Publish(_) => "publish"@,
                CommandView::Subscribe(_) => "subscribe"@,
                CommandView::Unsubscribe(_) => "unsubscribe"@,
            },
    {
        match self {
            Command::Get(_) => "get",
            Command::SetValue(_) => "set",
            Command::Publish(_) => "publish",
            Command::Subscribe(_) => "subscribe",
            Command::Unsubscribe(_) => "unsubscribe",
        }
    }
}

} // verus!
