//! The messages in which commands travel between the server and the client of the outer terminal.
use vstd::prelude::*;
use vstd::utf8::*;

use crate::codec;
use crate::frame::MAX_TRANSFER_COMMAND_BYTES;
use crate::frame_laws;

verus! {

/// The kind under which transfer controls travel.
pub const OSC_TRANSFER_CONTROL_KIND: &'static str = "terminal.transfer.v1";

/// The longest base64 text that a command may arrive in: four bytes for each three of the longest
/// command.
pub const MAX_ENCODED_COMMAND_BYTES: usize = 87384;

/// The number of sessions that may be live at one time.
pub const MAX_TRANSFER_SESSIONS: usize = 64;

/// How long a session may stay without traffic, in nanoseconds.
pub const TRANSFER_IDLE_TIMEOUT: u64 = 300_000_000_000;

/// How long a session that is ending may stay without traffic, and how long the trace of a retired
/// session is kept, in nanoseconds.
pub const TRANSFER_DRAIN_TIMEOUT: u64 = 30_000_000_000;

/// A command emitted by the server for the outer terminal. The bytes are encoded because the
/// control travels as a JSON string.
#[derive(Clone, Debug, PartialEq, Eq)]
pub struct TransferControl {
    pub boot_id: String,
    pub terminal_id: String,
    pub command: String,
    pub retire: bool,
}

/// What a client asks of the server: to hand a terminal's reply to the pane, or to cancel.
#[derive(Clone, Debug, PartialEq, Eq)]
pub enum TransferOperation {
    Reply { terminal_id: String, session_id: String, data: String },
    Cancel { terminal_id: String, session_id: String, message: String },
}

/// The model of a control.
pub struct ControlModel {
    pub boot_id: Seq<char>,
    pub terminal_id: Seq<char>,
    pub command: Seq<char>,
    pub retire: bool,
}

impl View for TransferControl {
    type V = ControlModel;

    open spec fn view(&self) -> ControlModel {
        ControlModel {
            boot_id: self.boot_id@,
            terminal_id: self.terminal_id@,
            command: self.command@,
            retire: self.retire,
        }
    }
}

/// The model of an operation.
pub enum OperationModel {
    Reply { terminal_id: Seq<char>, session_id: Seq<char>, data: Seq<char> },
    Cancel { terminal_id: Seq<char>, session_id: Seq<char>, message: Seq<char> },
}

impl View for TransferOperation {
    type V = OperationModel;

    open spec fn view(&self) -> OperationModel {
        match self {
            TransferOperation::Reply { terminal_id, session_id, data } => OperationModel::Reply {
                terminal_id: terminal_id@,
                session_id: session_id@,
                data: data@,
            },
            TransferOperation::Cancel { terminal_id, session_id, message } => {
                OperationModel::Cancel {
                    terminal_id: terminal_id@,
                    session_id: session_id@,
                    message: message@,
                }
            },
        }
    }
}

/// What is accepted of a decoded command: all of it, unless it is too long.
pub open spec fn accepted_command(decoded: Option<Seq<u8>>) -> Option<Seq<u8>> {
    match decoded {
        Some(command) if command.len() <= MAX_TRANSFER_COMMAND_BYTES => Some(command),
        _ => None,
    }
}

/// The command that base64 text carries, where neither the text nor the command is too long.
pub open spec fn decoded_command(text: Seq<char>) -> Option<Seq<u8>> {
    if encode_utf8(text).len() > MAX_ENCODED_COMMAND_BYTES {
        None
    } else {
        accepted_command(codec::base64_decoded(encode_utf8(text)))
    }
}

/// Drops a decoded command that is too long.
pub fn accept_command(decoded: Option<Vec<u8>>) -> (command: Option<Vec<u8>>)
    ensures
        command == (match decoded {
            Some(bytes) if bytes@.len() <= MAX_TRANSFER_COMMAND_BYTES => decoded,
            _ => None::<Vec<u8>>,
        }),
{
    match decoded {
        Some(bytes) => if bytes.len() <= MAX_TRANSFER_COMMAND_BYTES {
            Some(bytes)
        } else {
            None
        },
        None => None,
    }
}

/// The base64 text that carries a command. Where the command is of acceptable length, it is what
/// the text is decoded to; where it is longer, the text is not accepted.
pub fn encode_command(command: &[u8]) -> (text: String)
    requires
        codec::base64_fits(command@.len()),
    ensures
        text@ == codec::base64_encoded(command@),
        command@.len() <= MAX_TRANSFER_COMMAND_BYTES ==> decoded_command(text@) == Some(command@),
        command@.len() > MAX_TRANSFER_COMMAND_BYTES ==> decoded_command(text@) is None,
{
    let text = codec::encode_base64(command);
    proof {
        assert forall|i: int| 0 <= i < text@.len() implies '\0' <= #[trigger] text@[i]
            <= '\u{7f}' by {
            assert(codec::is_base64_digit(text@[i]) || text@[i] == '=');
        }
        frame_laws::lemma_ascii_encoding(text@);
    }
    text
}

impl TransferControl {
    /// The control that carries `command`. A command of acceptable length is what
    /// `decode_command` gives back; of a longer one it gives back nothing.
    pub fn new(boot_id: &str, terminal_id: &str, command: &[u8]) -> (control: TransferControl)
        requires
            codec::base64_fits(command@.len()),
        ensures
            control.boot_id@ == boot_id@,
            control.terminal_id@ == terminal_id@,
            control.command@ == codec::base64_encoded(command@),
            control.retire == false,
            command@.len() <= MAX_TRANSFER_COMMAND_BYTES ==> decoded_command(control.command@)
                == Some(command@),
            command@.len() > MAX_TRANSFER_COMMAND_BYTES ==> decoded_command(control.command@) is None,
    {
        let encoded = encode_command(command);
        TransferControl {
            boot_id: boot_id.to_owned(),
            terminal_id: terminal_id.to_owned(),
            command: encoded,
            retire: false,
        }
    }

    /// The command that the control carries, where it is one of acceptable length.
    pub fn decode_command(&self) -> (command: Option<Vec<u8>>)
        ensures
            command is Some <==> decoded_command(self.command@) is Some,
            command matches Some(bytes) ==> decoded_command(self.command@) == Some(bytes@),
    {
        let text = self.command.as_str().as_bytes();
        if text.len() > MAX_ENCODED_COMMAND_BYTES {
            return None;
        }
        accept_command(codec::decode_base64(text))
    }
}

} // verus!
