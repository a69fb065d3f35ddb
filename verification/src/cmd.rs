//! The supported commands: how each is parsed from an array frame and how
//! each is applied against the store.
//!
//! Command names are matched case-insensitively on their ASCII letters.  A
//! name that matches nothing becomes [`Unknown`], which answers with an
//! error frame but keeps the connection open.

use vstd::prelude::*;
use vstd::slice::*;
use vstd::string::*;
use vstd::utf8::*;

use crate::bridge::bytes_to_string;
use crate::db::{EntryModel, State};
use crate::frame::{encodable, frame_model, seq_views, Frame, FrameModel};
use crate::parse::{token_as_bytes, token_as_int, token_as_string, Parse, ParseError};
use crate::text::bytes_eq;

verus! {

/// ASCII upper-case letters folded to lower case; all else untouched.
pub open spec fn lower_byte(b: u8) -> u8 {
    if 65 <= b <= 90 {
        (b + 32) as u8
    } else {
        b
    }
}

pub open spec fn lower_bytes(s: Seq<u8>) -> Seq<u8> {
    Seq::new(s.len(), |i: int| if 0 <= i < s.len() {
        lower_byte(s[i])
    } else {
        0
    })
}

/// Folds the ASCII letters of a name to lower case.  Folding bytes keeps
/// UTF-8 valid for ASCII text; should folding ever break validity, the
/// name is kept as it came.
pub open spec fn spec_lower_name(name: Seq<char>) -> Seq<char> {
    if valid_utf8(lower_bytes(encode_utf8(name))) {
        decode_utf8(lower_bytes(encode_utf8(name)))
    } else {
        name
    }
}

/// Folds the ASCII letters of a byte string to lower case.
fn lower_vec(s: &[u8]) -> (r: Vec<u8>)
    ensures
        r@ == lower_bytes(s@),
{
    let mut out: Vec<u8> = Vec::new();
    let mut i: usize = 0;
    while i < s.len()
        invariant
            0 <= i <= s@.len(),
            out@.len() == i,
            forall|j: int| 0 <= j < i ==> out@[j] == lower_byte(#[trigger] s@[j]),
        decreases s@.len() - i,
    {
        let b = s[i];
        if 65 <= b && b <= 90 {
            out.push(b + 32);
        } else {
            out.push(b);
        }
        i = i + 1;
    }
    proof {
        assert(out@ =~= lower_bytes(s@));
    }
    out
}

/// Mathematical model of a command.
#[verifier::ext_equal]
pub enum CommandModel {
    Get { key: Seq<char> },
    SetCmd { key: Seq<char>, value: Seq<u8>, expire_ms: Option<u64> },
    Publish { channel: Seq<char>, message: Seq<u8> },
    Subscribe { channels: Seq<Seq<char>> },
    Unsubscribe { channels: Seq<Seq<char>> },
    Ping { msg: Option<Seq<u8>> },
    Unknown { name: Seq<char> },
}

/// Fetch the value at a key.
pub struct Get {
    key: String,
}

/// Store a value at a key, with an optional time to live.
pub struct SetCmd {
    key: String,
    value: Vec<u8>,
    expire_ms: Option<u64>,
}

/// Send a message to a channel's subscribers.
pub struct Publish {
    channel: String,
    message: Vec<u8>,
}

/// Enter a subscription for one or more channels.
pub struct Subscribe {
    channels: Vec<String>,
}

/// Leave some channels, or all of them when none is named.
pub struct Unsubscribe {
    channels: Vec<String>,
}

/// Check liveness, optionally echoing a payload.
pub struct Ping {
    msg: Option<Vec<u8>>,
}

/// A command whose name matched nothing this system supports.
pub struct Unknown {
    command_name: String,
}

/// Views of a sequence of strings.
pub open spec fn str_views(l: Seq<String>) -> Seq<Seq<char>> {
    Seq::new(l.len(), |i: int| if 0 <= i < l.len() {
        l[i]@
    } else {
        Seq::empty()
    })
}

/// The command this library dispatches on.
pub enum Command {
    Get(Get),
    Publish(Publish),
    SetCmd(SetCmd),
    Subscribe(Subscribe),
    Unsubscribe(Unsubscribe),
    Ping(Ping),
    Unknown(Unknown),
}

impl View for Command {
    type V = CommandModel;

    closed spec fn view(&self) -> CommandModel {
        match self {
            Command::Get(c) => CommandModel::Get { key: c.key@ },
            Command::SetCmd(c) => CommandModel::SetCmd {
                key: c.key@,
                value: c.value@,
                expire_ms: c.expire_ms,
            },
            Command::Publish(c) => CommandModel::Publish {
                channel: c.channel@,
                message: c.message@,
            },
            Command::Subscribe(c) => CommandModel::Subscribe { channels: str_views(c.channels@) },
            Command::Unsubscribe(c) => CommandModel::Unsubscribe {
                channels: str_views(c.channels@),
            },
            Command::Ping(c) => CommandModel::Ping {
                msg: match c.msg {
                    Some(ref m) => Some(m@),
                    None => None,
                },
            },
            Command::Unknown(c) => CommandModel::Unknown { name: c.command_name@ },
        }
    }
}

/// Seconds to milliseconds, stopping at the largest representable delay.
pub open spec fn sat_mul_1000(s: u64) -> u64 {
    if s * 1000 > u64::MAX {
        u64::MAX
    } else {
        (s * 1000) as u64
    }
}

/// What `GET` takes: exactly one key.
pub open spec fn spec_parse_get(args: Seq<FrameModel>) -> Result<CommandModel, ParseError> {
    if args.len() == 0 {
        Err(ParseError::EndOfStream)
    } else {
        match token_as_string(args[0]) {
            None => Err(ParseError::Protocol),
            Some(key) => if args.len() > 1 {
                Err(ParseError::Protocol)
            } else {
                Ok(CommandModel::Get { key })
            },
        }
    }
}

/// What `PUBLISH` takes: a channel and a message.
pub open spec fn spec_parse_publish(args: Seq<FrameModel>) -> Result<CommandModel, ParseError> {
    if args.len() == 0 {
        Err(ParseError::EndOfStream)
    } else {
        match token_as_string(args[0]) {
            None => Err(ParseError::Protocol),
            Some(channel) => if args.len() == 1 {
                Err(ParseError::EndOfStream)
            } else {
                match token_as_bytes(args[1]) {
                    None => Err(ParseError::Protocol),
                    Some(message) => if args.len() > 2 {
                        Err(ParseError::Protocol)
                    } else {
                        Ok(CommandModel::Publish { channel, message })
                    },
                }
            },
        }
    }
}

/// What `SET` takes: a key, a value, and at most one expiration option,
/// `EX` in seconds or `PX` in milliseconds, both rejected at zero.
pub open spec fn spec_parse_set(args: Seq<FrameModel>) -> Result<CommandModel, ParseError> {
    if args.len() == 0 {
        Err(ParseError::EndOfStream)
    } else {
        match token_as_string(args[0]) {
            None => Err(ParseError::Protocol),
            Some(key) => if args.len() == 1 {
                Err(ParseError::EndOfStream)
            } else {
                match token_as_bytes(args[1]) {
                    None => Err(ParseError::Protocol),
                    Some(value) => if args.len() == 2 {
                        Ok(CommandModel::SetCmd { key, value, expire_ms: None })
                    } else {
                        match token_as_string(args[2]) {
                            None => Err(ParseError::Protocol),
                            Some(opt) => spec_parse_set_expire(args, key, value, opt),
                        }
                    },
                }
            },
        }
    }
}

/// The expiration option of `SET`, after key and value.
pub open spec fn spec_parse_set_expire(
    args: Seq<FrameModel>,
    key: Seq<char>,
    value: Seq<u8>,
    opt: Seq<char>,
) -> Result<CommandModel, ParseError> {
    let lopt = lower_bytes(encode_utf8(opt));
    if lopt == encode_utf8("ex"@) {
        if args.len() == 3 {
            Err(ParseError::EndOfStream)
        } else {
            match token_as_int(args[3]) {
                None => Err(ParseError::Protocol),
                Some(secs) => if secs == 0 {
                    Err(ParseError::Protocol)
                } else if args.len() > 4 {
                    Err(ParseError::Protocol)
                } else {
                    Ok(CommandModel::SetCmd { key, value, expire_ms: Some(sat_mul_1000(secs)) })
                },
            }
        }
    } else if lopt == encode_utf8("px"@) {
        if args.len() == 3 {
            Err(ParseError::EndOfStream)
        } else {
            match token_as_int(args[3]) {
                None => Err(ParseError::Protocol),
                Some(ms) => if ms == 0 {
                    Err(ParseError::Protocol)
                } else if args.len() > 4 {
                    Err(ParseError::Protocol)
                } else {
                    Ok(CommandModel::SetCmd { key, value, expire_ms: Some(ms) })
                },
            }
        }
    } else {
        Err(ParseError::Protocol)
    }
}

/// Every remaining token read as text.
pub open spec fn spec_collect_strings(args: Seq<FrameModel>, i: int) -> Result<
    Seq<Seq<char>>,
    ParseError,
>
    decreases args.len() - i,
{
    if i < 0 || i >= args.len() {
        Ok(Seq::empty())
    } else {
        match token_as_string(args[i]) {
            None => Err(ParseError::Protocol),
            Some(s) => match spec_collect_strings(args, i + 1) {
                Ok(rest) => Ok(seq![s] + rest),
                Err(e) => Err(e),
            },
        }
    }
}

/// What `SUBSCRIBE` takes: one or more channels.
pub open spec fn spec_parse_subscribe(args: Seq<FrameModel>) -> Result<CommandModel, ParseError> {
    if args.len() == 0 {
        Err(ParseError::EndOfStream)
    } else {
        match spec_collect_strings(args, 0) {
            Ok(channels) => Ok(CommandModel::Subscribe { channels }),
            Err(e) => Err(e),
        }
    }
}

/// What `UNSUBSCRIBE` takes: any number of channels, none meaning all.
pub open spec fn spec_parse_unsubscribe(args: Seq<FrameModel>) -> Result<
    CommandModel,
    ParseError,
> {
    match spec_collect_strings(args, 0) {
        Ok(channels) => Ok(CommandModel::Unsubscribe { channels }),
        Err(e) => Err(e),
    }
}

/// What `PING` takes: at most one payload.
pub open spec fn spec_parse_ping(args: Seq<FrameModel>) -> Result<CommandModel, ParseError> {
    if args.len() == 0 {
        Ok(CommandModel::Ping { msg: None })
    } else {
        match token_as_bytes(args[0]) {
            None => Err(ParseError::Protocol),
            Some(m) => if args.len() > 1 {
                Err(ParseError::Protocol)
            } else {
                Ok(CommandModel::Ping { msg: Some(m) })
            },
        }
    }
}

impl View for Get {
    type V = CommandModel;

    closed spec fn view(&self) -> CommandModel {
        CommandModel::Get { key: self.key@ }
    }
}

impl View for SetCmd {
    type V = CommandModel;

    closed spec fn view(&self) -> CommandModel {
        CommandModel::SetCmd { key: self.key@, value: self.value@, expire_ms: self.expire_ms }
    }
}

impl View for Publish {
    type V = CommandModel;

    closed spec fn view(&self) -> CommandModel {
        CommandModel::Publish { channel: self.channel@, message: self.message@ }
    }
}

impl View for Subscribe {
    type V = CommandModel;

    closed spec fn view(&self) -> CommandModel {
        CommandModel::Subscribe { channels: str_views(self.channels@) }
    }
}

impl View for Unsubscribe {
    type V = CommandModel;

    closed spec fn view(&self) -> CommandModel {
        CommandModel::Unsubscribe { channels: str_views(self.channels@) }
    }
}

impl View for Ping {
    type V = CommandModel;

    closed spec fn view(&self) -> CommandModel {
        CommandModel::Ping {
            msg: match self.msg {
                Some(ref m) => Some(m@),
                None => None,
            },
        }
    }
}

impl View for Unknown {
    type V = CommandModel;

    closed spec fn view(&self) -> CommandModel {
        CommandModel::Unknown { name: self.command_name@ }
    }
}

impl Get {
    /// Reads the key this `GET` asks for and checks nothing follows it.
    fn parse_frames(parse: &mut Parse) -> (r: Result<Get, ParseError>)
        requires
            old(parse).wf(),
        ensures
            final(parse).wf(),
            final(parse).tokens() == old(parse).tokens(),
            match r {
                Ok(g) => spec_parse_get(old(parse).remaining()) == Ok::<CommandModel, ParseError>(
                    g@,
                ),
                Err(e) => spec_parse_get(old(parse).remaining()) == Err::<
                    CommandModel,
                    ParseError,
                >(e),
            },
    {
        let ghost t0 = old(parse).tokens();
        let ghost p0 = old(parse).pos_spec();
        let ghost args = old(parse).remaining();
        proof {
            assert(args.len() == t0.len() - p0);
            if p0 < t0.len() {
                assert(args[0] == t0[p0]);
            }
        }
        let key = match parse.next_string() {
            Ok(s) => s,
            Err(e) => {
                return Err(e);
            },
        };
        match parse.finish() {
            Ok(u) => Ok(Get { key }),
            Err(e) => Err(e),
        }
    }
}

impl Publish {
    /// Reads the channel and message this `PUBLISH` carries and checks
    /// nothing follows them.
    fn parse_frames(parse: &mut Parse) -> (r: Result<Publish, ParseError>)
        requires
            old(parse).wf(),
        ensures
            final(parse).wf(),
            final(parse).tokens() == old(parse).tokens(),
            match r {
                Ok(p) => spec_parse_publish(old(parse).remaining()) == Ok::<
                    CommandModel,
                    ParseError,
                >(p@),
                Err(e) => spec_parse_publish(old(parse).remaining()) == Err::<
                    CommandModel,
                    ParseError,
                >(e),
            },
    {
        let ghost t0 = old(parse).tokens();
        let ghost p0 = old(parse).pos_spec();
        let ghost args = old(parse).remaining();
        proof {
            assert(args.len() == t0.len() - p0);
            if p0 < t0.len() {
                assert(args[0] == t0[p0]);
            }
            if p0 + 1 < t0.len() {
                assert(args[1] == t0[p0 + 1]);
            }
        }
        let channel = match parse.next_string() {
            Ok(s) => s,
            Err(e) => {
                return Err(e);
            },
        };
        let message = match parse.next_bytes() {
            Ok(v) => v,
            Err(e) => {
                return Err(e);
            },
        };
        match parse.finish() {
            Ok(u) => Ok(Publish { channel, message }),
            Err(e) => Err(e),
        }
    }
}

impl Ping {
    /// Reads the optional payload this `PING` echoes and checks nothing
    /// follows it.
    fn parse_frames(parse: &mut Parse) -> (r: Result<Ping, ParseError>)
        requires
            old(parse).wf(),
        ensures
            final(parse).wf(),
            final(parse).tokens() == old(parse).tokens(),
            match r {
                Ok(p) => spec_parse_ping(old(parse).remaining()) == Ok::<
                    CommandModel,
                    ParseError,
                >(p@),
                Err(e) => spec_parse_ping(old(parse).remaining()) == Err::<
                    CommandModel,
                    ParseError,
                >(e),
            },
    {
        let ghost t0 = old(parse).tokens();
        let ghost p0 = old(parse).pos_spec();
        let ghost args = old(parse).remaining();
        proof {
            assert(args.len() == t0.len() - p0);
            if p0 < t0.len() {
                assert(args[0] == t0[p0]);
            }
        }
        let msg: Option<Vec<u8>> = match parse.next_bytes() {
            Ok(m) => Some(m),
            Err(ParseError::EndOfStream) => None,
            Err(e) => {
                return Err(e);
            },
        };
        match parse.finish() {
            Ok(u) => Ok(Ping { msg }),
            Err(e) => Err(e),
        }
    }
}

/// Reads every remaining token as text, appending to `out`.
fn collect_strings(parse: &mut Parse, out: &mut Vec<String>) -> (r: Result<(), ParseError>)
    requires
        old(parse).wf(),
    ensures
        final(parse).wf(),
        final(parse).tokens() == old(parse).tokens(),
        match r {
            Ok(u) => (match spec_collect_strings(old(parse).tokens(), old(parse).pos_spec()) {
                Ok(rest) => str_views(final(out)@) == str_views(old(out)@) + rest,
                Err(_) => false,
            }) && final(parse).pos_spec() >= final(parse).tokens().len(),
            Err(e) => e is Protocol && spec_collect_strings(
                old(parse).tokens(),
                old(parse).pos_spec(),
            ) == Err::<Seq<Seq<char>>, ParseError>(ParseError::Protocol),
        },
    decreases old(parse).tokens().len() - old(parse).pos_spec(),
{
    let ghost t0 = old(parse).tokens();
    let ghost p0 = old(parse).pos_spec();
    match parse.next_string() {
        Ok(s) => {
            let ghost sv = s@;
            let ghost o0 = out@;
            out.push(s);
            let ghost o1 = out@;
            proof {
                assert(str_views(o1) =~= str_views(o0).push(sv));
            }
            match collect_strings(parse, out) {
                Ok(u) => {
                    proof {
                        let inner = spec_collect_strings(t0, p0 + 1);
                        match inner {
                            Ok(rest) => {
                                assert(str_views(out@) == str_views(o1) + rest);
                                assert(str_views(o0).push(sv) + rest =~= str_views(o0) + (seq![sv]
                                    + rest));
                                assert(spec_collect_strings(t0, p0) == Ok::<
                                    Seq<Seq<char>>,
                                    ParseError,
                                >(seq![sv] + rest));
                            },
                            Err(_) => {
                                assert(false);
                            },
                        }
                    }
                    Ok(())
                },
                Err(e) => Err(e),
            }
        },
        Err(ParseError::EndOfStream) => {
            proof {
                assert(spec_collect_strings(t0, p0) == Ok::<Seq<Seq<char>>, ParseError>(
                    Seq::empty(),
                ));
                assert(str_views(out@) + Seq::<Seq<char>>::empty() =~= str_views(out@));
            }
            Ok(())
        },
        Err(e) => Err(e),
    }
}

/// Collecting from a suffix is collecting from the tail position.
proof fn lemma_collect_skip(s: Seq<FrameModel>, k: int, i: int)
    requires
        0 <= k <= s.len(),
        0 <= i,
    ensures
        spec_collect_strings(s.skip(k), i) == spec_collect_strings(s, k + i),
    decreases s.len() - (k + i),
{
    if k + i < s.len() {
        assert(s.skip(k)[i] == s[k + i]);
        lemma_collect_skip(s, k, i + 1);
    }
}

impl SetCmd {
    /// Reads key, value and the optional `EX`/`PX` expiration, and checks
    /// nothing follows them.
    fn parse_frames(parse: &mut Parse) -> (r: Result<SetCmd, ParseError>)
        requires
            old(parse).wf(),
        ensures
            final(parse).wf(),
            final(parse).tokens() == old(parse).tokens(),
            match r {
                Ok(c) => spec_parse_set(old(parse).remaining()) == Ok::<
                    CommandModel,
                    ParseError,
                >(c@),
                Err(e) => spec_parse_set(old(parse).remaining()) == Err::<
                    CommandModel,
                    ParseError,
                >(e),
            },
    {
        let ghost t0 = old(parse).tokens();
        let ghost p0 = old(parse).pos_spec();
        let ghost args = old(parse).remaining();
        proof {
            assert(args.len() == t0.len() - p0);
            if p0 < t0.len() {
                assert(args[0] == t0[p0]);
            }
            if p0 + 1 < t0.len() {
                assert(args[1] == t0[p0 + 1]);
            }
            if p0 + 2 < t0.len() {
                assert(args[2] == t0[p0 + 2]);
            }
            if p0 + 3 < t0.len() {
                assert(args[3] == t0[p0 + 3]);
            }
        }
        let key = match parse.next_string() {
            Ok(s) => s,
            Err(e) => {
                return Err(e);
            },
        };
        let value = match parse.next_bytes() {
            Ok(v) => v,
            Err(e) => {
                return Err(e);
            },
        };
        let mut expire_ms: Option<u64> = None;
        match parse.next_string() {
            Ok(opt) => {
                let lopt = lower_vec(opt.as_str().as_bytes());
                if bytes_eq(lopt.as_slice(), "ex".as_bytes()) {
                    let secs = match parse.next_int() {
                        Ok(n) => n,
                        Err(e) => {
                            return Err(e);
                        },
                    };
                    if secs == 0 {
                        return Err(ParseError::Protocol);
                    }
                    let ms = if secs > u64::MAX / 1000 {
                        u64::MAX
                    } else {
                        secs * 1000
                    };
                    proof {
                        vstd::arithmetic::div_mod::lemma_fundamental_div_mod(u64::MAX as int, 1000);
                        if secs > u64::MAX / 1000 {
                            assert(secs * 1000 > u64::MAX) by (nonlinear_arith)
                                requires
                                    secs >= u64::MAX / 1000 + 1,
                                    u64::MAX == 1000 * (u64::MAX / 1000) + u64::MAX % 1000,
                                    u64::MAX % 1000 < 1000,
                            ;
                        } else {
                            assert(secs * 1000 <= u64::MAX) by (nonlinear_arith)
                                requires
                                    secs <= u64::MAX / 1000,
                                    u64::MAX == 1000 * (u64::MAX / 1000) + u64::MAX % 1000,
                                    0 <= u64::MAX % 1000,
                            ;
                        }
                        assert(ms == sat_mul_1000(secs));
                    }
                    expire_ms = Some(ms);
                } else if bytes_eq(lopt.as_slice(), "px".as_bytes()) {
                    let ms = match parse.next_int() {
                        Ok(n) => n,
                        Err(e) => {
                            return Err(e);
                        },
                    };
                    if ms == 0 {
                        return Err(ParseError::Protocol);
                    }
                    expire_ms = Some(ms);
                } else {
                    return Err(ParseError::Protocol);
                }
            },
            Err(ParseError::EndOfStream) => {},
            Err(e) => {
                return Err(e);
            },
        }
        match parse.finish() {
            Ok(u) => Ok(SetCmd { key, value, expire_ms }),
            Err(e) => Err(e),
        }
    }
}

impl Subscribe {
    /// Reads one or more channel names, to the end of the tokens.
    fn parse_frames(parse: &mut Parse) -> (r: Result<Subscribe, ParseError>)
        requires
            old(parse).wf(),
        ensures
            final(parse).wf(),
            final(parse).tokens() == old(parse).tokens(),
            match r {
                Ok(c) => spec_parse_subscribe(old(parse).remaining()) == Ok::<
                    CommandModel,
                    ParseError,
                >(c@),
                Err(e) => spec_parse_subscribe(old(parse).remaining()) == Err::<
                    CommandModel,
                    ParseError,
                >(e),
            },
    {
        let ghost t0 = old(parse).tokens();
        let ghost p0 = old(parse).pos_spec();
        let ghost args = old(parse).remaining();
        proof {
            assert(args.len() == t0.len() - p0);
            if p0 < t0.len() {
                assert(args[0] == t0[p0]);
            }
        }
        let first = match parse.next_string() {
            Ok(s) => s,
            Err(e) => {
                proof {
                    if p0 < t0.len() {
                        assert(spec_collect_strings(args, 0) == Err::<Seq<Seq<char>>, ParseError>(
                            ParseError::Protocol,
                        ));
                    }
                }
                return Err(e);
            },
        };
        let ghost firstv = first@;
        let mut channels: Vec<String> = Vec::new();
        channels.push(first);
        proof {
            assert(str_views(channels@) =~= Seq::<Seq<char>>::empty().push(firstv));
        }
        let ghost c1 = channels@;
        match collect_strings(parse, &mut channels) {
            Ok(u) => {
                proof {
                    lemma_collect_skip(t0, p0, 1);
                    match spec_collect_strings(t0, p0 + 1) {
                        Ok(rest) => {
                            assert(str_views(channels@) == str_views(c1) + rest);
                            assert(str_views(c1) + rest =~= seq![firstv] + rest);
                            assert(spec_collect_strings(args, 0) == Ok::<
                                Seq<Seq<char>>,
                                ParseError,
                            >(seq![firstv] + rest));
                        },
                        Err(_) => {
                            assert(false);
                        },
                    }
                }
                Ok(Subscribe { channels })
            },
            Err(e) => {
                proof {
                    lemma_collect_skip(t0, p0, 1);
                    assert(spec_collect_strings(args, 0) == Err::<Seq<Seq<char>>, ParseError>(
                        ParseError::Protocol,
                    ));
                }
                Err(e)
            },
        }
    }
}

impl Unsubscribe {
    /// Reads any number of channel names, to the end of the tokens.
    fn parse_frames(parse: &mut Parse) -> (r: Result<Unsubscribe, ParseError>)
        requires
            old(parse).wf(),
        ensures
            final(parse).wf(),
            final(parse).tokens() == old(parse).tokens(),
            match r {
                Ok(c) => spec_parse_unsubscribe(old(parse).remaining()) == Ok::<
                    CommandModel,
                    ParseError,
                >(c@),
                Err(e) => spec_parse_unsubscribe(old(parse).remaining()) == Err::<
                    CommandModel,
                    ParseError,
                >(e),
            },
    {
        let ghost t0 = old(parse).tokens();
        let ghost p0 = old(parse).pos_spec();
        let ghost args = old(parse).remaining();
        let mut channels: Vec<String> = Vec::new();
        proof {
            assert(str_views(channels@) =~= Seq::<Seq<char>>::empty());
        }
        match collect_strings(parse, &mut channels) {
            Ok(u) => {
                proof {
                    lemma_collect_skip(t0, p0, 0);
                    match spec_collect_strings(t0, p0) {
                        Ok(rest) => {
                            assert(str_views(channels@) == Seq::<Seq<char>>::empty() + rest);
                            assert(Seq::<Seq<char>>::empty() + rest =~= rest);
                        },
                        Err(_) => {
                            assert(false);
                        },
                    }
                }
                Ok(Unsubscribe { channels })
            },
            Err(e) => {
                proof {
                    lemma_collect_skip(t0, p0, 0);
                }
                Err(e)
            },
        }
    }
}

/// The command a frame stands for: the frame must be an array, its first
/// token names the command case-insensitively on ASCII, and the remaining
/// tokens are that command's arguments.  An unrecognised name yields
/// `Unknown` without reading the arguments.
pub open spec fn spec_from_frame(f: FrameModel) -> Result<CommandModel, ParseError> {
    match f {
        FrameModel::Array(tokens) => {
            if tokens.len() == 0 {
                Err(ParseError::EndOfStream)
            } else {
                match token_as_string(tokens[0]) {
                    None => Err(ParseError::Protocol),
                    Some(name) => {
                        let lname = lower_bytes(encode_utf8(name));
                        let args = tokens.skip(1);
                        if lname == encode_utf8("get"@) {
                            spec_parse_get(args)
                        } else if lname == encode_utf8("publish"@) {
                            spec_parse_publish(args)
                        } else if lname == encode_utf8("set"@) {
                            spec_parse_set(args)
                        } else if lname == encode_utf8("subscribe"@) {
                            spec_parse_subscribe(args)
                        } else if lname == encode_utf8("unsubscribe"@) {
                            spec_parse_unsubscribe(args)
                        } else if lname == encode_utf8("ping"@) {
                            spec_parse_ping(args)
                        } else {
                            Ok(CommandModel::Unknown { name: spec_lower_name(name) })
                        }
                    },
                }
            }
        },
        _ => Err(ParseError::Protocol),
    }
}

impl Command {
    /// Parses a received frame into the command it stands for.  The frame
    /// must be an array whose first token names the command; names are
    /// matched case-insensitively on ASCII.  A name that matches nothing
    /// yields `Unknown` with the remaining tokens unread.
    pub fn from_frame(frame: Frame) -> (r: Result<Command, ParseError>)
        ensures
            match r {
                Ok(cmd) => spec_from_frame(frame@) == Ok::<CommandModel, ParseError>(cmd@),
                Err(e) => spec_from_frame(frame@) == Err::<CommandModel, ParseError>(e),
            },
    {
        let ghost fm = frame@;
        let mut parse = match Parse::new(frame) {
            Ok(p) => p,
            Err(e) => {
                return Err(e);
            },
        };
        let ghost tokens = parse.tokens();
        let name = match parse.next_string() {
            Ok(s) => s,
            Err(e) => {
                return Err(e);
            },
        };
        proof {
            assert(parse.remaining() =~= tokens.skip(1));
        }
        let lname = lower_vec(name.as_str().as_bytes());
        if bytes_eq(lname.as_slice(), "get".as_bytes()) {
            match Get::parse_frames(&mut parse) {
                Ok(c) => Ok(Command::Get(c)),
                Err(e) => Err(e),
            }
        } else if bytes_eq(lname.as_slice(), "publish".as_bytes()) {
            match Publish::parse_frames(&mut parse) {
                Ok(c) => Ok(Command::Publish(c)),
                Err(e) => Err(e),
            }
        } else if bytes_eq(lname.as_slice(), "set".as_bytes()) {
            match SetCmd::parse_frames(&mut parse) {
                Ok(c) => Ok(Command::SetCmd(c)),
                Err(e) => Err(e),
            }
        } else if bytes_eq(lname.as_slice(), "subscribe".as_bytes()) {
            match Subscribe::parse_frames(&mut parse) {
                Ok(c) => Ok(Command::Subscribe(c)),
                Err(e) => Err(e),
            }
        } else if bytes_eq(lname.as_slice(), "unsubscribe".as_bytes()) {
            match Unsubscribe::parse_frames(&mut parse) {
                Ok(c) => Ok(Command::Unsubscribe(c)),
                Err(e) => Err(e),
            }
        } else if bytes_eq(lname.as_slice(), "ping".as_bytes()) {
            match Ping::parse_frames(&mut parse) {
                Ok(c) => Ok(Command::Ping(c)),
                Err(e) => Err(e),
            }
        } else {
            let command_name = match bytes_to_string(lname) {
                Some(s) => s,
                None => name,
            };
            Ok(Command::Unknown(Unknown { command_name }))
        }
    }
}

/// The name a command goes by in logs and diagnostics.
pub open spec fn spec_name(c: CommandModel) -> Seq<char> {
    match c {
        CommandModel::Get { .. } => "get"@,
        CommandModel::Publish { .. } => "pub"@,
        CommandModel::SetCmd { .. } => "set"@,
        CommandModel::Subscribe { .. } => "subscribe"@,
        CommandModel::Unsubscribe { .. } => "unsubscribe"@,
        CommandModel::Ping { .. } => "ping"@,
        CommandModel::Unknown { name } => name,
    }
}

/// Builds the error reply an unknown command is answered with.
fn unknown_reply(name: &String) -> (r: Frame)
    ensures
        r@ == FrameModel::Error("ERR unknown command '"@ + name@ + "'"@),
{
    let mut msg = String::from_str("ERR unknown command '");
    msg.append(name.as_str());
    msg.append("'");
    Frame::Error(msg)
}

/// What applying a command against the state produces.
pub enum Applied {
    /// A response frame to write back.  `notify` asks the caller to wake
    /// the sweeper, after releasing the state lock, because the write
    /// moved the next expiration earlier.
    Reply { frame: Frame, notify: bool },
    /// The connection enters a subscription for these channels.
    StartSubscription { channels: Vec<String> },
    /// `UNSUBSCRIBE` arrived outside a subscription; the connection is
    /// beyond recovery.
    InvalidUnsubscribe,
}

impl Command {
    /// The command's name: what it was dispatched as, or for an unknown
    /// command the name that failed to match.
    pub fn get_name(&self) -> (r: &str)
        ensures
            r@ == spec_name(self@),
    {
        match self {
            Command::Get(c) => "get",
            Command::Publish(c) => "pub",
            Command::SetCmd(c) => "set",
            Command::Subscribe(c) => "subscribe",
            Command::Unsubscribe(c) => "unsubscribe",
            Command::Ping(c) => "ping",
            Command::Unknown(c) => c.command_name.as_str(),
        }
    }

    /// Applies this command against the state and says what to do next:
    /// write a reply (waking the sweeper first if asked), enter a
    /// subscription, or give the connection up.  The caller holds the
    /// state's lock for exactly this call.
    pub fn apply_to_state(self, state: &mut State, now_ms: u64) -> (r: Applied)
        requires
            old(state).wf(),
        ensures
            final(state).wf(),
            !(self@ is SetCmd) ==> *final(state) == *old(state),
            match self@ {
                CommandModel::Get { key } => r matches Applied::Reply { frame, notify } && !notify
                    && encodable(frame@) && frame@ == (if old(state).entries_map().contains_key(
                    key,
                ) {
                    FrameModel::Bulk(old(state).entries_map().index(key).data)
                } else {
                    FrameModel::Null
                }),
                CommandModel::SetCmd { key, value, expire_ms } => ({
                    let st0 = *old(state);
                    let st1 = *final(state);
                    let when = crate::db::expiry_of(expire_ms, now_ms);
                    &&& (r matches Applied::Reply { frame, notify } && frame@
                        == FrameModel::Simple("OK"@) && encodable(frame@) && notify == (match when {
                        Some(t) => match st0.next_expiration_spec() {
                            None => true,
                            Some(m) => m > t,
                        },
                        None => false,
                    }))
                    &&& st1.entries_map() == st0.entries_map().insert(
                        key,
                        EntryModel { data: value, expires_at: when },
                    )
                    &&& st1.channel_set() == st0.channel_set()
                    &&& st1.shutdown_spec() == st0.shutdown_spec()
                }),
                CommandModel::Publish { channel, message } => r matches Applied::Reply {
                    frame,
                    notify,
                } && !notify && frame@ is Integer && encodable(frame@) && (!old(
                    state,
                ).channel_set().contains(channel) ==> frame@ == FrameModel::Integer(0)),
                CommandModel::Subscribe { channels } => r matches Applied::StartSubscription {
                    channels: cs,
                } && str_views(cs@) == channels,
                CommandModel::Unsubscribe { .. } => r is InvalidUnsubscribe,
                CommandModel::Ping { msg } => r matches Applied::Reply { frame, notify } && !notify
                    && encodable(frame@) && frame@ == (match msg {
                    None => FrameModel::Simple("PONG"@),
                    Some(m) => FrameModel::Bulk(m),
                }),
                CommandModel::Unknown { name } => r matches Applied::Reply { frame, notify }
                    && !notify && frame@ == FrameModel::Error(
                    "ERR unknown command '"@ + name + "'"@,
                ),
            },
    {
        match self {
            Command::Get(c) => {
                let frame = match state.get(c.key.as_str()) {
                    Some(v) => Frame::Bulk(v),
                    None => Frame::Null,
                };
                Applied::Reply { frame, notify: false }
            },
            Command::SetCmd(c) => {
                let notify = state.set(c.key, c.value, c.expire_ms, now_ms);
                proof {
                    reveal_strlit("OK");
                    crate::frame::lemma_ascii_clean_text("OK"@);
                }
                Applied::Reply { frame: Frame::Simple(String::from_str("OK")), notify }
            },
            Command::Publish(c) => {
                let count = state.publish(c.channel.as_str(), c.message);
                Applied::Reply { frame: Frame::Integer(count as u64), notify: false }
            },
            Command::Subscribe(c) => Applied::StartSubscription { channels: c.channels },
            Command::Unsubscribe(c) => Applied::InvalidUnsubscribe,
            Command::Ping(c) => match c.msg {
                Some(m) => Applied::Reply { frame: Frame::Bulk(m), notify: false },
                None => {
                    proof {
                        reveal_strlit("PONG");
                        crate::frame::lemma_ascii_clean_text("PONG"@);
                    }
                    Applied::Reply {
                        frame: Frame::Simple(String::from_str("PONG")),
                        notify: false,
                    }
                },
            },
            Command::Unknown(c) => {
                let frame = unknown_reply(&c.command_name);
                Applied::Reply { frame, notify: false }
            },
        }
    }
}

impl Get {
    /// A `GET` for `key`.
    pub fn new(key: String) -> (r: Get)
        ensures
            r@ == (CommandModel::Get { key: key@ }),
    {
        Get { key }
    }

    /// The key being fetched.
    pub fn key(&self) -> (r: &str)
        ensures
            self@ == (CommandModel::Get { key: r@ }),
    {
        self.key.as_str()
    }
}

impl SetCmd {
    /// A `SET` of `key` to `value`, expiring `expire_ms` milliseconds
    /// after it is applied if a time to live is given.
    pub fn new(key: String, value: Vec<u8>, expire_ms: Option<u64>) -> (r: SetCmd)
        ensures
            r@ == (CommandModel::SetCmd { key: key@, value: value@, expire_ms }),
    {
        SetCmd { key, value, expire_ms }
    }

    /// The key being written.
    pub fn key(&self) -> (r: &str)
        ensures
            self@ matches CommandModel::SetCmd { key, .. } && key == r@,
    {
        self.key.as_str()
    }

    /// The value being written.
    pub fn value(&self) -> (r: &Vec<u8>)
        ensures
            self@ matches CommandModel::SetCmd { value, .. } && value == r@,
    {
        &self.value
    }

    /// The requested time to live in milliseconds, if any.
    pub fn expire_ms(&self) -> (r: Option<u64>)
        ensures
            self@ matches CommandModel::SetCmd { expire_ms, .. } && expire_ms == r,
    {
        self.expire_ms
    }
}

impl Publish {
    /// A `PUBLISH` of `message` on `channel`.
    pub fn new(channel: String, message: Vec<u8>) -> (r: Publish)
        ensures
            r@ == (CommandModel::Publish { channel: channel@, message: message@ }),
    {
        Publish { channel, message }
    }

    /// The channel being published to.
    pub fn channel(&self) -> (r: &str)
        ensures
            self@ matches CommandModel::Publish { channel, .. } && channel == r@,
    {
        self.channel.as_str()
    }
}

impl Subscribe {
    /// A `SUBSCRIBE` for these channels.
    pub fn new(channels: Vec<String>) -> (r: Subscribe)
        ensures
            r@ == (CommandModel::Subscribe { channels: str_views(channels@) }),
    {
        Subscribe { channels }
    }

    /// The channels asked for, in request order.
    pub fn into_channels(self) -> (r: Vec<String>)
        ensures
            self@ == (CommandModel::Subscribe { channels: str_views(r@) }),
    {
        self.channels
    }
}

impl Unsubscribe {
    /// An `UNSUBSCRIBE` for these channels; none means every channel.
    pub fn new(channels: Vec<String>) -> (r: Unsubscribe)
        ensures
            r@ == (CommandModel::Unsubscribe { channels: str_views(channels@) }),
    {
        Unsubscribe { channels }
    }

    /// The channels named, in request order; empty means every channel.
    pub fn into_channels(self) -> (r: Vec<String>)
        ensures
            self@ == (CommandModel::Unsubscribe { channels: str_views(r@) }),
    {
        self.channels
    }
}

impl Ping {
    /// A `PING`, echoing `msg` if one is given.
    pub fn new(msg: Option<Vec<u8>>) -> (r: Ping)
        ensures
            r@ == (CommandModel::Ping {
                msg: match msg {
                    Some(m) => Some(m@),
                    None => None,
                },
            }),
    {
        Ping { msg }
    }
}

impl Unknown {
    /// A command under a name this system does not support.
    pub fn new(command_name: String) -> (r: Unknown)
        ensures
            r@ == (CommandModel::Unknown { name: command_name@ }),
    {
        Unknown { command_name }
    }

    /// The name that failed to match.
    pub fn get_name(&self) -> (r: &str)
        ensures
            self@ == (CommandModel::Unknown { name: r@ }),
    {
        self.command_name.as_str()
    }
}

/// Builds the three-element confirmation sent for each newly subscribed
/// channel: the word `subscribe`, the channel, and how many channels the
/// connection now subscribes to.
pub fn make_subscribe_frame(channel: &str, count: u64) -> (r: Frame)
    ensures
        encodable(r@),
        r@ == FrameModel::Array(
            seq![
                FrameModel::Bulk(encode_utf8("subscribe"@)),
                FrameModel::Bulk(encode_utf8(channel@)),
                FrameModel::Integer(count),
            ],
        ),
{
    let mut v: Vec<Frame> = Vec::new();
    v.push(Frame::Bulk(slice_to_vec("subscribe".as_bytes())));
    v.push(Frame::Bulk(slice_to_vec(channel.as_bytes())));
    v.push(Frame::Integer(count));
    proof {
        crate::frame::lemma_seq_views_props(v@);
        assert(v@.len() == 3);
        assert(seq_views(v@)[0] == frame_model(v@[0]));
        assert(seq_views(v@)[1] == frame_model(v@[1]));
        assert(seq_views(v@)[2] == frame_model(v@[2]));
        assert(frame_model(v@[0]) == FrameModel::Bulk(encode_utf8("subscribe"@)));
        assert(encodable(FrameModel::Array(seq_views(v@))));
        assert(seq_views(v@) =~= seq![
            FrameModel::Bulk(encode_utf8("subscribe"@)),
            FrameModel::Bulk(encode_utf8(channel@)),
            FrameModel::Integer(count),
        ]);
    }
    Frame::Array(v)
}

/// Builds the three-element confirmation sent for each channel left: the
/// word `unsubscribe`, the channel, and how many subscriptions remain.
pub fn make_unsubscribe_frame(channel: &str, count: u64) -> (r: Frame)
    ensures
        encodable(r@),
        r@ == FrameModel::Array(
            seq![
                FrameModel::Bulk(encode_utf8("unsubscribe"@)),
                FrameModel::Bulk(encode_utf8(channel@)),
                FrameModel::Integer(count),
            ],
        ),
{
    let mut v: Vec<Frame> = Vec::new();
    v.push(Frame::Bulk(slice_to_vec("unsubscribe".as_bytes())));
    v.push(Frame::Bulk(slice_to_vec(channel.as_bytes())));
    v.push(Frame::Integer(count));
    proof {
        crate::frame::lemma_seq_views_props(v@);
        assert(v@.len() == 3);
        assert(seq_views(v@)[0] == frame_model(v@[0]));
        assert(seq_views(v@)[1] == frame_model(v@[1]));
        assert(seq_views(v@)[2] == frame_model(v@[2]));
        assert(frame_model(v@[0]) == FrameModel::Bulk(encode_utf8("unsubscribe"@)));
        assert(encodable(FrameModel::Array(seq_views(v@))));
        assert(seq_views(v@) =~= seq![
            FrameModel::Bulk(encode_utf8("unsubscribe"@)),
            FrameModel::Bulk(encode_utf8(channel@)),
            FrameModel::Integer(count),
        ]);
    }
    Frame::Array(v)
}

/// Builds the three-element frame delivering a published message to a
/// subscriber: the word `message`, the channel, and the payload.
pub fn make_message_frame(channel: &str, payload: Vec<u8>) -> (r: Frame)
    ensures
        encodable(r@),
        r@ == FrameModel::Array(
            seq![
                FrameModel::Bulk(encode_utf8("message"@)),
                FrameModel::Bulk(encode_utf8(channel@)),
                FrameModel::Bulk(payload@),
            ],
        ),
{
    let ghost pv = payload@;
    let mut v: Vec<Frame> = Vec::new();
    v.push(Frame::Bulk(slice_to_vec("message".as_bytes())));
    v.push(Frame::Bulk(slice_to_vec(channel.as_bytes())));
    v.push(Frame::Bulk(payload));
    proof {
        crate::frame::lemma_seq_views_props(v@);
        assert(v@.len() == 3);
        assert(seq_views(v@)[0] == frame_model(v@[0]));
        assert(seq_views(v@)[1] == frame_model(v@[1]));
        assert(seq_views(v@)[2] == frame_model(v@[2]));
        assert(frame_model(v@[0]) == FrameModel::Bulk(encode_utf8("message"@)));
        assert(encodable(FrameModel::Array(seq_views(v@))));
        assert(seq_views(v@) =~= seq![
            FrameModel::Bulk(encode_utf8("message"@)),
            FrameModel::Bulk(encode_utf8(channel@)),
            FrameModel::Bulk(pv),
        ]);
    }
    Frame::Array(v)
}

} // verus!
