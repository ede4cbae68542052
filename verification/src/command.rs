//! The command model: interpreting a decoded frame as a store operation.
//!
//! A request is an array frame whose first element names the verb, matched
//! case-insensitively. `GET` takes exactly one key, `SET` exactly a key and
//! a value. Any other verb is an `Unknown` command (the handler answers it
//! with an error reply and keeps the connection open); a frame of the wrong
//! shape or arity is rejected outright.

use vstd::prelude::*;
use vstd::string::StrSliceExecFns;
use crate::codec::utf8_to_string;
use crate::frame::Frame;
use crate::frame::FrameModel;
use crate::frame::fm;
use crate::frame::fm_seq;
use crate::frame::lemma_fm_seq_props;
use crate::frame::text_bytes;

verus! {

/// A typed store operation.
#[derive(Debug, PartialEq, Eq)]
pub enum Command {
    /// Retrieve the value stored under `key`.
    Get { key: String },
    /// Store `value` under `key`: the wire verb `SET`.
    Put { key: String, value: Vec<u8> },
    /// A well-shaped request whose verb the store does not know.
    Unknown { verb: String },
}

/// Rejection of a frame that does not spell any command.
#[derive(Debug, PartialEq, Eq)]
pub enum CommandError {
    /// Wrong frame shape, wrong arity, or an argument of the wrong type.
    Malformed,
}

/// Ghost mirror of [`Command`].
pub enum CommandModel {
    Get(Seq<char>),
    Put(Seq<char>, Seq<u8>),
    Unknown(Seq<char>),
}

/// Model of a command.
pub open spec fn cm(c: Command) -> CommandModel {
    match c {
        Command::Get { key } => CommandModel::Get(key@),
        Command::Put { key, value } => CommandModel::Put(key@, value@),
        Command::Unknown { verb } => CommandModel::Unknown(verb@),
    }
}

/// ASCII lower-casing of one character.
pub open spec fn lower(c: char) -> char {
    if 'A' <= c <= 'Z' {
        ((c as u8) + 32) as char
    } else {
        c
    }
}

/// ASCII lower-casing of a text.
pub open spec fn lower_text(s: Seq<char>) -> Seq<char> {
    Seq::new(s.len(), |i: int| lower(s[i]))
}

/// Text carried by an argument frame: the characters of a simple frame or
/// of a valid-UTF-8 bulk frame; anything else carries none.
pub open spec fn arg_text(m: FrameModel) -> Option<Seq<char>> {
    match m {
        FrameModel::Simple(s) => Some(s),
        FrameModel::Bulk(b) => if vstd::utf8::valid_utf8(b) {
            Some(vstd::utf8::decode_utf8(b))
        } else {
            Option::None
        },
        _ => Option::None,
    }
}

/// Bytes carried by a value argument: a bulk payload or the bytes of a
/// simple frame's text.
pub open spec fn arg_bytes(m: FrameModel) -> Option<Seq<u8>> {
    match m {
        FrameModel::Simple(s) => Some(text_bytes(s)),
        FrameModel::Bulk(b) => Some(b),
        _ => Option::None,
    }
}

/// The verb spelled `get`, lower case.
pub open spec fn get_verb() -> Seq<char> {
    seq!['g', 'e', 't']
}

/// The verb spelled `set`, lower case.
pub open spec fn set_verb() -> Seq<char> {
    seq!['s', 'e', 't']
}

/// What a frame means as a command: `None` where it is malformed.
pub open spec fn interpret(m: FrameModel) -> Option<CommandModel> {
    match m {
        FrameModel::Array(a) => {
            if a.len() < 1 {
                Option::None
            } else {
                match arg_text(a[0]) {
                    Option::None => Option::None,
                    Some(verb) => {
                        if lower_text(verb) == get_verb() {
                            if a.len() == 2 {
                                match arg_text(a[1]) {
                                    Some(k) => Some(CommandModel::Get(k)),
                                    Option::None => Option::None,
                                }
                            } else {
                                Option::None
                            }
                        } else if lower_text(verb) == set_verb() {
                            if a.len() == 3 {
                                match (arg_text(a[1]), arg_bytes(a[2])) {
                                    (Some(k), Some(v)) => Some(CommandModel::Put(k, v)),
                                    _ => Option::None,
                                }
                            } else {
                                Option::None
                            }
                        } else {
                            Some(CommandModel::Unknown(verb))
                        }
                    },
                }
            }
        },
        _ => Option::None,
    }
}

/// The text of an argument frame, per `arg_text`.
fn text_of(el: &Frame) -> (r: Option<String>)
    ensures
        match r {
            Some(s) => arg_text(fm(*el)) == Some(s@),
            Option::None => arg_text(fm(*el)) is None,
        },
{
    match el {
        Frame::Simple(s) => Some(s.clone()),
        Frame::Bulk(b) => {
            match utf8_to_string(b.as_slice()) {
                Some(s) => Some(s),
                Option::None => Option::None,
            }
        },
        _ => Option::None,
    }
}

/// The bytes of a value argument, per `arg_bytes`.
fn bytes_of(el: &Frame) -> (r: Option<Vec<u8>>)
    ensures
        match r {
            Some(v) => arg_bytes(fm(*el)) == Some(v@),
            Option::None => arg_bytes(fm(*el)) is None,
        },
{
    match el {
        Frame::Simple(s) => {
            let st = s.as_str();
            let bs = st.as_bytes();
            proof {
                assert(bs@ == text_bytes(s@));
            }
            Some(vstd::slice::slice_to_vec(bs))
        },
        Frame::Bulk(b) => {
            let mut out: Vec<u8> = Vec::new();
            let mut i: usize = 0;
            while i < b.len()
                invariant
                    i <= b@.len(),
                    out@ == b@.take(i as int),
                decreases b@.len() - i,
            {
                out.push(b[i]);
                i = i + 1;
                proof {
                    assert(out@ =~= b@.take(i as int));
                }
            }
            proof {
                assert(b@.take(b@.len() as int) =~= b@);
            }
            Some(out)
        },
        _ => Option::None,
    }
}

/// Whether lower-casing `s` gives the three characters `c0 c1 c2` (each an
/// ASCII lower-case letter byte).
fn lower_eq3(s: &String, c0: u8, c1: u8, c2: u8) -> (r: bool)
    requires
        97 <= c0 <= 122,
        97 <= c1 <= 122,
        97 <= c2 <= 122,
    ensures
        r == (lower_text(s@) == seq![c0 as char, c1 as char, c2 as char]),
{
    let st = s.as_str();
    let ghost target = seq![c0 as char, c1 as char, c2 as char];
    if st.unicode_len() != 3 {
        proof {
            assert(lower_text(s@).len() != 3);
        }
        return false;
    }
    if !st.is_ascii() {
        proof {
            // some character lies beyond ASCII; lower-casing keeps it
            // there, while every character of the target is ASCII
            let i = choose|i: int| 0 <= i < s@.len() && !('\0' <= #[trigger] s@[i] <= '\u{7f}');
            assert(lower(s@[i]) == s@[i]);
            assert(lower_text(s@)[i] != target[i]);
        }
        return false;
    }
    let mut i: usize = 0;
    let want: [u8; 3] = [c0, c1, c2];
    while i < 3
        invariant
            i <= 3,
            s@.len() == 3,
            st@ == s@,
            vstd::utf8::is_ascii_chars(s@),
            st.is_ascii(),
            want@ == seq![c0, c1, c2],
            97 <= c0 <= 122 && 97 <= c1 <= 122 && 97 <= c2 <= 122,
            forall|j: int| 0 <= j < i ==> lower_text(s@)[j] == (#[trigger] want@[j]) as char,
        decreases 3 - i,
    {
        let c = st.get_ascii(i);
        let lc: u8 = if c >= 65 && c <= 90 {
            c + 32
        } else {
            c
        };
        if lc != want[i] {
            proof {
                assert(c == s@[i as int] as u8);
                assert(s@[i as int] <= '\u{7f}');
                assert(lc as char == lower(s@[i as int]));
                assert(lower_text(s@)[i as int] != (want@[i as int]) as char);
            }
            return false;
        }
        proof {
            assert(c == s@[i as int] as u8);
            assert(s@[i as int] <= '\u{7f}');
            assert(lc as char == lower(s@[i as int]));
        }
        i = i + 1;
    }
    proof {
        assert(lower_text(s@) =~= seq![c0 as char, c1 as char, c2 as char]);
    }
    true
}

/// Interprets an array frame as a command, or rejects it as malformed.
pub fn from_frame(f: &Frame) -> (r: Result<Command, CommandError>)
    ensures
        match r {
            Ok(c) => interpret(fm(*f)) == Some(cm(c)),
            Err(e) => e == CommandError::Malformed && interpret(fm(*f)) is None,
        },
{
    match f {
        Frame::Array(v) => {
            let ghost ms = fm_seq(v@, 0);
            proof {
                lemma_fm_seq_props(v@, 0);
            }
            if v.len() == 0 {
                return Err(CommandError::Malformed);
            }
            let verb = match text_of(&v[0]) {
                Some(s) => s,
                Option::None => {
                    return Err(CommandError::Malformed);
                },
            };
            if lower_eq3(&verb, 103, 101, 116) {
                proof {
                    assert(lower_text(verb@) == get_verb());
                }
                if v.len() == 2 {
                    match text_of(&v[1]) {
                        Some(k) => Ok(Command::Get { key: k }),
                        Option::None => Err(CommandError::Malformed),
                    }
                } else {
                    Err(CommandError::Malformed)
                }
            } else if lower_eq3(&verb, 115, 101, 116) {
                proof {
                    assert(lower_text(verb@) == set_verb());
                }
                if v.len() == 3 {
                    let k = match text_of(&v[1]) {
                        Some(k) => k,
                        Option::None => {
                            return Err(CommandError::Malformed);
                        },
                    };
                    match bytes_of(&v[2]) {
                        Some(val) => Ok(Command::Put { key: k, value: val }),
                        Option::None => Err(CommandError::Malformed),
                    }
                } else {
                    Err(CommandError::Malformed)
                }
            } else {
                Ok(Command::Unknown { verb })
            }
        },
        _ => Err(CommandError::Malformed),
    }
}

} // verus!
