//! Command interpretation: how one decoded frame becomes a store action and
//! a response frame, for the two supported commands `SET` and `GET`.
//!
//! The store itself is an external collaborator; the caller performs the
//! `Set`/`Get` action and builds the `GET` answer with `get_response`.

use vstd::prelude::*;
use crate::frame::{Frame, FrameModel, frame_model, lemma_frames_model};

verus! {

/// What the dispatch layer should do with one decoded frame.
#[derive(Debug, PartialEq)]
pub enum Command {
    /// Store the value under the key, then answer `Simple("OK")`.
    Store(Vec<u8>, Vec<u8>),
    /// A `SET` whose key or value argument is absent: answer `Simple("OK")`
    /// without touching the store. That is the reference behavior, kept
    /// deliberately rather than silently turned into an error.
    StoreNoop,
    /// Look the key up, then answer with `get_response`.
    Fetch(Vec<u8>),
    /// Answer this frame directly, without consulting the store.
    Reply(Frame),
}

/// The mathematical shape of a command.
#[verifier::ext_equal]
pub enum CommandModel {
    Store(Seq<u8>, Seq<u8>),
    StoreNoop,
    Fetch(Seq<u8>),
    Reply(FrameModel),
}

pub open spec fn command_model(c: Command) -> CommandModel {
    match c {
        Command::Store(k, v) => CommandModel::Store(k@, v@),
        Command::StoreNoop => CommandModel::StoreNoop,
        Command::Fetch(k) => CommandModel::Fetch(k@),
        Command::Reply(f) => CommandModel::Reply(frame_model(f)),
    }
}

impl View for Command {
    type V = CommandModel;

    open spec fn view(&self) -> CommandModel {
        command_model(*self)
    }
}

/// The bytes of the command name `SET`.
pub open spec fn set_name() -> Seq<u8> {
    seq![83u8, 69u8, 84u8]
}

/// The bytes of the command name `GET`.
pub open spec fn get_name() -> Seq<u8> {
    seq![71u8, 69u8, 84u8]
}

/// The command a frame denotes: an array whose first element is a bulk
/// string naming `SET` or `GET`, anything else answered with an error frame.
/// The reply texts are wire-visible and are fixed here byte-for-byte, the
/// "and array" wording included.
pub open spec fn command_of(f: FrameModel) -> CommandModel {
    match f {
        FrameModel::Array(elts) => {
            if elts.len() == 0 || !(elts[0] is Bulk) {
                CommandModel::Reply(FrameModel::Error("Invalid Command Format!"@))
            } else {
                let name = elts[0]->Bulk_0;
                if name == set_name() {
                    if elts.len() >= 3 && elts[1] is Bulk && elts[2] is Bulk {
                        CommandModel::Store(elts[1]->Bulk_0, elts[2]->Bulk_0)
                    } else {
                        CommandModel::StoreNoop
                    }
                } else if name == get_name() {
                    if elts.len() >= 2 && elts[1] is Bulk {
                        CommandModel::Fetch(elts[1]->Bulk_0)
                    } else {
                        CommandModel::Reply(FrameModel::Error("Usage: GET <key>"@))
                    }
                } else {
                    CommandModel::Reply(FrameModel::Error("Unknown Command"@))
                }
            }
        },
        _ => CommandModel::Reply(FrameModel::Error("Command must be and array"@)),
    }
}

/// Interpret one decoded frame as a command, exactly as `command_of` says.
pub fn interpret_command(frame: Frame) -> (r: Command)
    ensures
        r@ == command_of(frame@),
{
    match frame {
        Frame::Array(mut elts) => {
            let ghost elts0 = elts@;
            proof {
                lemma_frames_model(elts0);
            }
            if elts.len() == 0 {
                return Command::Reply(Frame::Error("Invalid Command Format!".to_owned()));
            }
            let first = elts.remove(0);
            proof {
                lemma_frames_model(elts@);
                assert(elts@ =~= elts0.remove(0));
                assert(forall|j: int| 0 <= j < elts@.len() ==> elts@[j] == elts0[j + 1]);
            }
            match first {
                Frame::Bulk(name) => {
                    if name.len() == 3 && name[0] == 83 && name[1] == 69 && name[2] == 84 {
                        proof {
                            assert(name@ =~= set_name());
                        }
                        if elts.len() >= 2 {
                            let key_frame = elts.remove(0);
                            let val_frame = elts.remove(0);
                            match (key_frame, val_frame) {
                                (Frame::Bulk(k), Frame::Bulk(v)) => Command::Store(k, v),
                                _ => Command::StoreNoop,
                            }
                        } else {
                            Command::StoreNoop
                        }
                    } else if name.len() == 3 && name[0] == 71 && name[1] == 69 && name[2]
                        == 84 {
                        proof {
                            assert(name@ =~= get_name());
                        }
                        if elts.len() >= 1 {
                            let key_frame = elts.remove(0);
                            match key_frame {
                                Frame::Bulk(k) => Command::Fetch(k),
                                _ => Command::Reply(Frame::Error("Usage: GET <key>".to_owned())),
                            }
                        } else {
                            Command::Reply(Frame::Error("Usage: GET <key>".to_owned()))
                        }
                    } else {
                        proof {
                            if name@ == set_name() {
                                assert(name@.len() == 3 && name@[0] == 83 && name@[1] == 69
                                    && name@[2] == 84);
                            }
                            if name@ == get_name() {
                                assert(name@.len() == 3 && name@[0] == 71 && name@[1] == 69
                                    && name@[2] == 84);
                            }
                        }
                        Command::Reply(Frame::Error("Unknown Command".to_owned()))
                    }
                },
                _ => Command::Reply(Frame::Error("Invalid Command Format!".to_owned())),
            }
        },
        _ => Command::Reply(Frame::Error("Command must be and array".to_owned())),
    }
}

/// The answer to a `SET` command.
pub fn set_response() -> (r: Frame)
    ensures
        r@ == FrameModel::Simple("OK"@),
{
    Frame::Simple("OK".to_owned())
}

/// The answer to a `GET` command, for each possible store lookup result:
/// the value as a bulk frame when the key is present, `Null` when absent.
pub fn get_response(found: Option<Vec<u8>>) -> (r: Frame)
    ensures
        match found {
            Some(v) => r@ == FrameModel::Bulk(v@),
            None => r@ == FrameModel::Null,
        },
{
    match found {
        Some(v) => Frame::Bulk(v),
        None => Frame::Null,
    }
}

} // verus!
