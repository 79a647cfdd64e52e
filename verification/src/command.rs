//! The command model: a closed set of request variants, each built by
//! validating a decoded Array of Bulk values.
use vstd::prelude::*;

use crate::protocol::{lemma_resp_view_list, resp_view_list, Resp, RespV};
use crate::text::{
    bytes_eq, eq_ignore_case_lower, eq_ignore_case_upper, lower_seq, spec_parse_u64, upper_seq,
};
use vstd::string::StringSliceAdditionalSpecFns;

verus! {

/// A validated request. Payloads are raw bytes, as on the wire.
#[derive(Debug, Clone)]
pub enum Command {
    Echo(Vec<u8>),
    Ping,
    Get(Vec<u8>),
    SetValue(Vec<u8>, Vec<u8>, Option<u64>),
    Info(Option<Vec<u8>>),
    Replconf(ReplconfArgs),
    Psync(PsyncArgs),
}

#[derive(Debug, Clone)]
pub enum ReplconfArgs {
    Port(Vec<u8>),
    Capa(Vec<Vec<u8>>),
}

#[derive(Debug, Clone)]
pub enum PsyncArgs {
    Question(Vec<u8>),
    Id(Vec<u8>, Vec<u8>),
}

/// The mathematical shape of a command.
#[verifier::ext_equal]
pub enum CommandV {
    Echo(Seq<u8>),
    Ping,
    Get(Seq<u8>),
    SetValue(Seq<u8>, Seq<u8>, Option<u64>),
    Info(Option<Seq<u8>>),
    Replconf(ReplconfArgsV),
    Psync(PsyncArgsV),
}

#[verifier::ext_equal]
pub enum ReplconfArgsV {
    Port(Seq<u8>),
    Capa(Seq<Seq<u8>>),
}

#[verifier::ext_equal]
pub enum PsyncArgsV {
    Question(Seq<u8>),
    Id(Seq<u8>, Seq<u8>),
}

impl View for ReplconfArgs {
    type V = ReplconfArgsV;

    open spec fn view(&self) -> ReplconfArgsV {
        match self {
            ReplconfArgs::Port(p) => ReplconfArgsV::Port(p@),
            ReplconfArgs::Capa(caps) => ReplconfArgsV::Capa(caps.deep_view()),
        }
    }
}

impl View for PsyncArgs {
    type V = PsyncArgsV;

    open spec fn view(&self) -> PsyncArgsV {
        match self {
            PsyncArgs::Question(o) => PsyncArgsV::Question(o@),
            PsyncArgs::Id(id, o) => PsyncArgsV::Id(id@, o@),
        }
    }
}

impl View for Command {
    type V = CommandV;

    open spec fn view(&self) -> CommandV {
        match self {
            Command::Echo(p) => CommandV::Echo(p@),
            Command::Ping => CommandV::Ping,
            Command::Get(k) => CommandV::Get(k@),
            Command::SetValue(k, v, ttl) => CommandV::SetValue(k@, v@, *ttl),
            Command::Info(c) => CommandV::Info(
                match c {
                    Some(c) => Some(c@),
                    None => None,
                },
            ),
            Command::Replconf(a) => CommandV::Replconf(a@),
            Command::Psync(a) => CommandV::Psync(a@),
        }
    }
}

/// A request that does not form a valid command: either its shape is not a
/// command at all, or the verb's arguments are wrong.
#[derive(Debug, PartialEq, Eq, Structural, Clone, Copy)]
pub enum CmdErrKind {
    InvalidCommand,
    InvalidArguments,
}

/// A command failure, carrying its full description. The kind alone is the
/// specified behaviour.
#[derive(Debug, Clone, Copy, PartialEq, Eq)]
pub enum CommandError {
    InvalidCommand(&'static str),
    InvalidArguments(&'static str),
}

impl View for CommandError {
    type V = CmdErrKind;

    open spec fn view(&self) -> CmdErrKind {
        match self {
            CommandError::InvalidCommand(_) => CmdErrKind::InvalidCommand,
            CommandError::InvalidArguments(_) => CmdErrKind::InvalidArguments,
        }
    }
}

impl CommandError {
    /// The description this error carries.
    pub fn message(&self) -> (r: &'static str)
    {
        match self {
            CommandError::InvalidCommand(m) => m,
            CommandError::InvalidArguments(m) => m,
        }
    }
}

/// Whether an executable parse result is the one the specification gives.
pub open spec fn cmd_result_matches(
    r: Result<Command, CommandError>,
    s: Result<CommandV, CmdErrKind>,
) -> bool {
    match (r, s) {
        (Ok(c), Ok(sc)) => c@ == sc,
        (Err(e), Err(k)) => e@ == k,
        _ => false,
    }
}

/// Parsing a top-level request: an Array of Bulk values whose first element
/// names the verb, case-insensitively.
pub open spec fn spec_from_resp(v: RespV) -> Result<CommandV, CmdErrKind> {
    match v {
        RespV::Array(args) => spec_parse_command(args),
        _ => Err(CmdErrKind::InvalidCommand),
    }
}

pub open spec fn spec_parse_command(args: Seq<RespV>) -> Result<CommandV, CmdErrKind> {
    if args.len() == 0 {
        Err(CmdErrKind::InvalidCommand)
    } else {
        match args[0] {
            RespV::Bulk(Some(w)) => {
                let verb = upper_seq(w);
                if verb == "ECHO".spec_bytes() {
                    spec_parse_echo(args)
                } else if verb == "PING".spec_bytes() {
                    spec_parse_ping(args)
                } else if verb == "GET".spec_bytes() {
                    spec_parse_get(args)
                } else if verb == "SET".spec_bytes() {
                    spec_parse_set(args)
                } else if verb == "INFO".spec_bytes() {
                    spec_parse_info(args)
                } else if verb == "REPLCONF".spec_bytes() {
                    spec_parse_replconf(args)
                } else if verb == "PSYNC".spec_bytes() {
                    spec_parse_psync(args)
                } else {
                    Err(CmdErrKind::InvalidCommand)
                }
            },
            _ => Err(CmdErrKind::InvalidCommand),
        }
    }
}

/// ECHO takes exactly one Bulk argument.
pub open spec fn spec_parse_echo(args: Seq<RespV>) -> Result<CommandV, CmdErrKind> {
    if args.len() == 2 {
        match args[1] {
            RespV::Bulk(Some(data)) => Ok(CommandV::Echo(data)),
            _ => Err(CmdErrKind::InvalidArguments),
        }
    } else {
        Err(CmdErrKind::InvalidArguments)
    }
}

/// PING takes no arguments.
pub open spec fn spec_parse_ping(args: Seq<RespV>) -> Result<CommandV, CmdErrKind> {
    if args.len() == 1 {
        Ok(CommandV::Ping)
    } else {
        Err(CmdErrKind::InvalidArguments)
    }
}

/// GET takes exactly one Bulk argument, the key.
pub open spec fn spec_parse_get(args: Seq<RespV>) -> Result<CommandV, CmdErrKind> {
    if args.len() == 2 {
        match args[1] {
            RespV::Bulk(Some(key)) => Ok(CommandV::Get(key)),
            _ => Err(CmdErrKind::InvalidArguments),
        }
    } else {
        Err(CmdErrKind::InvalidArguments)
    }
}

/// SET takes a key and a value, optionally followed by `PX` and a
/// non-negative 64-bit millisecond count.
pub open spec fn spec_parse_set(args: Seq<RespV>) -> Result<CommandV, CmdErrKind> {
    if args.len() == 3 {
        match (args[1], args[2]) {
            (RespV::Bulk(Some(key)), RespV::Bulk(Some(val))) => Ok(
                CommandV::SetValue(key, val, None),
            ),
            _ => Err(CmdErrKind::InvalidArguments),
        }
    } else if args.len() == 5 {
        match (args[1], args[2], args[3], args[4]) {
            (
                RespV::Bulk(Some(key)),
                RespV::Bulk(Some(val)),
                RespV::Bulk(Some(px)),
                RespV::Bulk(Some(millis)),
            ) => {
                if upper_seq(px) == "PX".spec_bytes() {
                    match spec_parse_u64(millis) {
                        Some(ms) => Ok(CommandV::SetValue(key, val, Some(ms))),
                        None => Err(CmdErrKind::InvalidArguments),
                    }
                } else {
                    Err(CmdErrKind::InvalidArguments)
                }
            },
            _ => Err(CmdErrKind::InvalidArguments),
        }
    } else {
        Err(CmdErrKind::InvalidArguments)
    }
}

/// INFO takes exactly one Bulk argument, which must name the replication
/// category, case-insensitively.
pub open spec fn spec_parse_info(args: Seq<RespV>) -> Result<CommandV, CmdErrKind> {
    if args.len() == 2 {
        match args[1] {
            RespV::Bulk(Some(category)) => if upper_seq(category) == "REPLICATION".spec_bytes() {
                Ok(CommandV::Info(Some(category)))
            } else {
                Err(CmdErrKind::InvalidArguments)
            },
            _ => Err(CmdErrKind::InvalidArguments),
        }
    } else {
        Err(CmdErrKind::InvalidArguments)
    }
}

/// Adds a capability name unless it is already present.
pub open spec fn insert_unique(caps: Seq<Seq<u8>>, x: Seq<u8>) -> Seq<Seq<u8>> {
    if caps.contains(x) {
        caps
    } else {
        caps.push(x)
    }
}

/// REPLCONF scans `listening-port <port>` / `capa <name>` pairs:
/// `listening-port` short-circuits with its port; repeated `capa` names
/// accumulate into a deduplicated set; anything else, or a dangling
/// sub-verb, is invalid.
pub open spec fn spec_parse_replconf(args: Seq<RespV>) -> Result<CommandV, CmdErrKind> {
    if args.len() == 0 {
        spec_replconf_scan(Seq::empty(), Seq::empty())
    } else {
        spec_replconf_scan(args.drop_first(), Seq::empty())
    }
}

pub open spec fn spec_replconf_scan(rest: Seq<RespV>, caps: Seq<Seq<u8>>) -> Result<
    CommandV,
    CmdErrKind,
>
    decreases rest.len(),
{
    if rest.len() == 0 {
        Ok(CommandV::Replconf(ReplconfArgsV::Capa(caps)))
    } else {
        match rest[0] {
            RespV::Bulk(Some(w)) => {
                let sub = lower_seq(w);
                if sub == "capa".spec_bytes() {
                    if rest.len() < 2 {
                        Err(CmdErrKind::InvalidArguments)
                    } else {
                        match rest[1] {
                            RespV::Bulk(Some(name)) => spec_replconf_scan(
                                rest.skip(2),
                                insert_unique(caps, name),
                            ),
                            _ => Err(CmdErrKind::InvalidArguments),
                        }
                    }
                } else if sub == "listening-port".spec_bytes() {
                    if rest.len() < 2 {
                        Err(CmdErrKind::InvalidArguments)
                    } else {
                        match rest[1] {
                            RespV::Bulk(Some(port)) => Ok(
                                CommandV::Replconf(ReplconfArgsV::Port(port)),
                            ),
                            _ => Err(CmdErrKind::InvalidArguments),
                        }
                    }
                } else {
                    Err(CmdErrKind::InvalidArguments)
                }
            },
            _ => Err(CmdErrKind::InvalidArguments),
        }
    }
}

/// PSYNC takes two Bulk arguments: the initial query `? -1`, or a
/// replication id and offset.
pub open spec fn spec_parse_psync(args: Seq<RespV>) -> Result<CommandV, CmdErrKind> {
    if args.len() == 3 {
        match (args[1], args[2]) {
            (RespV::Bulk(Some(a)), RespV::Bulk(Some(b))) => {
                if lower_seq(a) == "?".spec_bytes() {
                    if b == "-1".spec_bytes() {
                        Ok(CommandV::Psync(PsyncArgsV::Question(b)))
                    } else {
                        Err(CmdErrKind::InvalidArguments)
                    }
                } else {
                    Ok(CommandV::Psync(PsyncArgsV::Id(a, b)))
                }
            },
            _ => Err(CmdErrKind::InvalidArguments),
        }
    } else {
        Err(CmdErrKind::InvalidArguments)
    }
}

impl Command {
    /// Builds a command from a decoded protocol value, exactly as
    /// `spec_from_resp` describes.
    pub fn from_resp(resp: Resp) -> (r: Result<Command, CommandError>)
        ensures
            cmd_result_matches(r, spec_from_resp(resp@)),
    {
        match resp {
            Resp::Array(args) => parse_command(args.as_slice()),
            _ => Err(
                CommandError::InvalidCommand(
                    "Command Error: Invalid Packet - RESP should be an array",
                ),
            ),
        }
    }
}

/// Selects the verb, case-insensitively, and hands the whole argument list
/// to its parser.
pub fn parse_command(args: &[Resp]) -> (r: Result<Command, CommandError>)
    ensures
        cmd_result_matches(r, spec_parse_command(resp_view_list(args@))),
{
    proof {
        lemma_resp_view_list(args@);
    }
    if args.len() == 0 {
        return Err(
            CommandError::InvalidCommand(
                "Command Error: Invalid Command - Command must be a bulk string",
            ),
        );
    }
    let w = match &args[0] {
        Resp::Bulk(Some(s)) => s,
        _ => {
            return Err(
                CommandError::InvalidCommand(
                    "Command Error: Invalid Command - Command must be a bulk string",
                ),
            );
        },
    };
    if eq_ignore_case_upper(w.as_slice(), "ECHO".as_bytes()) {
        parse_echo(args)
    } else if eq_ignore_case_upper(w.as_slice(), "PING".as_bytes()) {
        parse_ping(args)
    } else if eq_ignore_case_upper(w.as_slice(), "GET".as_bytes()) {
        parse_get(args)
    } else if eq_ignore_case_upper(w.as_slice(), "SET".as_bytes()) {
        parse_set(args)
    } else if eq_ignore_case_upper(w.as_slice(), "INFO".as_bytes()) {
        parse_info(args)
    } else if eq_ignore_case_upper(w.as_slice(), "REPLCONF".as_bytes()) {
        parse_replconf(args)
    } else if eq_ignore_case_upper(w.as_slice(), "PSYNC".as_bytes()) {
        parse_psync(args)
    } else {
        Err(CommandError::InvalidCommand("Command Error: Invalid Command - Unsupported command"))
    }
}

pub fn parse_echo(args: &[Resp]) -> (r: Result<Command, CommandError>)
    ensures
        cmd_result_matches(r, spec_parse_echo(resp_view_list(args@))),
{
    proof {
        lemma_resp_view_list(args@);
    }
    if args.len() == 2 {
        match &args[1] {
            Resp::Bulk(Some(data)) => Ok(
                Command::Echo(vstd::slice::slice_to_vec(data.as_slice())),
            ),
            _ => Err(
                CommandError::InvalidArguments(
                    "Command Error: Invalid Arguments - All arguments must be bulk strings",
                ),
            ),
        }
    } else {
        Err(
            CommandError::InvalidArguments(
                "Command Error: Invalid Arguments - command expects exactly one argument",
            ),
        )
    }
}

pub fn parse_ping(args: &[Resp]) -> (r: Result<Command, CommandError>)
    ensures
        cmd_result_matches(r, spec_parse_ping(resp_view_list(args@))),
{
    proof {
        lemma_resp_view_list(args@);
    }
    if args.len() == 1 {
        Ok(Command::Ping)
    } else {
        Err(
            CommandError::InvalidArguments(
                "Command Error: Invalid Arguments - PING command expects no arguments",
            ),
        )
    }
}

pub fn parse_get(args: &[Resp]) -> (r: Result<Command, CommandError>)
    ensures
        cmd_result_matches(r, spec_parse_get(resp_view_list(args@))),
{
    proof {
        lemma_resp_view_list(args@);
    }
    if args.len() == 2 {
        match &args[1] {
            Resp::Bulk(Some(key)) => Ok(Command::Get(vstd::slice::slice_to_vec(key.as_slice()))),
            _ => Err(
                CommandError::InvalidArguments("Command Error: Invalid Arguments - Usage: GET <key>"),
            ),
        }
    } else {
        Err(CommandError::InvalidArguments("Command Error: Invalid Arguments - Usage: GET <key>"))
    }
}

pub fn parse_set(args: &[Resp]) -> (r: Result<Command, CommandError>)
    ensures
        cmd_result_matches(r, spec_parse_set(resp_view_list(args@))),
{
    proof {
        lemma_resp_view_list(args@);
    }
    if args.len() == 3 {
        match (&args[1], &args[2]) {
            (Resp::Bulk(Some(key)), Resp::Bulk(Some(val))) => Ok(
                Command::SetValue(
                    vstd::slice::slice_to_vec(key.as_slice()),
                    vstd::slice::slice_to_vec(val.as_slice()),
                    None,
                ),
            ),
            _ => Err(
                CommandError::InvalidArguments(
                    "Command Error: Invalid Arguments - Usage: SET <key> <value> <px> <milliseconds>",
                ),
            ),
        }
    } else if args.len() == 5 {
        match (&args[1], &args[2], &args[3], &args[4]) {
            (
                Resp::Bulk(Some(key)),
                Resp::Bulk(Some(val)),
                Resp::Bulk(Some(px)),
                Resp::Bulk(Some(millis)),
            ) => {
                if eq_ignore_case_upper(px.as_slice(), "PX".as_bytes()) {
                    match crate::text::parse_u64_bytes(millis.as_slice()) {
                        Some(ms) => Ok(
                            Command::SetValue(
                                vstd::slice::slice_to_vec(key.as_slice()),
                                vstd::slice::slice_to_vec(val.as_slice()),
                                Some(ms),
                            ),
                        ),
                        None => Err(
                            CommandError::InvalidArguments(
                                "Command Error: Invalid Arguments - Invalid millisecond value",
                            ),
                        ),
                    }
                } else {
                    Err(
                        CommandError::InvalidArguments(
                            "Command Error: Invalid Arguments - Unrecognized argument",
                        ),
                    )
                }
            },
            _ => Err(
                CommandError::InvalidArguments(
                    "Command Error: Invalid Arguments - Usage: SET <key> <value> <px> <milliseconds>",
                ),
            ),
        }
    } else {
        Err(
            CommandError::InvalidArguments(
                "Command Error: Invalid Arguments - Usage: SET <key> <value> <px> <milliseconds>",
            ),
        )
    }
}

pub fn parse_info(args: &[Resp]) -> (r: Result<Command, CommandError>)
    ensures
        cmd_result_matches(r, spec_parse_info(resp_view_list(args@))),
{
    proof {
        lemma_resp_view_list(args@);
    }
    if args.len() == 2 {
        match &args[1] {
            Resp::Bulk(Some(category)) => {
                if eq_ignore_case_upper(category.as_slice(), "REPLICATION".as_bytes()) {
                    Ok(Command::Info(Some(vstd::slice::slice_to_vec(category.as_slice()))))
                } else {
                    Err(
                        CommandError::InvalidArguments(
                            "Command Error: Invalid Arguments - Unrecognized argument",
                        ),
                    )
                }
            },
            _ => Err(
                CommandError::InvalidArguments(
                    "Command Error: Invalid Arguments - Usage: INFO <category>",
                ),
            ),
        }
    } else {
        Err(
            CommandError::InvalidArguments(
                "Command Error: Invalid Arguments - Usage: INFO <category>",
            ),
        )
    }
}

/// Whether a capability name is already among those collected.
fn contains_bytes(v: &Vec<Vec<u8>>, x: &[u8]) -> (r: bool)
    ensures
        r == v.deep_view().contains(x@),
{
    let mut j: usize = 0;
    while j < v.len()
        invariant
            0 <= j <= v@.len(),
            forall|k: int| 0 <= k < j ==> v.deep_view()[k] != x@,
        decreases v@.len() - j,
    {
        assert(v.deep_view()[j as int] == v@[j as int]@);
        if bytes_eq(v[j].as_slice(), x) {
            assert(v.deep_view()[j as int] == x@);
            return true;
        }
        j += 1;
    }
    assert(forall|k: int| 0 <= k < v.deep_view().len() ==> v.deep_view()[k] != x@);
    false
}

#[verifier::loop_isolation(false)]
pub fn parse_replconf(args: &[Resp]) -> (r: Result<Command, CommandError>)
    ensures
        cmd_result_matches(r, spec_parse_replconf(resp_view_list(args@))),
{
    proof {
        lemma_resp_view_list(args@);
    }
    let ghost vargs = resp_view_list(args@);
    if args.len() == 0 {
        let caps: Vec<Vec<u8>> = Vec::new();
        assert(caps.deep_view() =~= Seq::<Seq<u8>>::empty());
        return Ok(Command::Replconf(ReplconfArgs::Capa(caps)));
    }
    let mut caps: Vec<Vec<u8>> = Vec::new();
    let mut i: usize = 1;
    assert(vargs.skip(1) == vargs.drop_first());
    assert(caps.deep_view() =~= Seq::<Seq<u8>>::empty());
    while i < args.len()
        invariant
            1 <= i <= args@.len(),
            spec_parse_replconf(vargs) == spec_replconf_scan(
                vargs.skip(i as int),
                caps.deep_view(),
            ),
        decreases args@.len() - i,
    {
        let ghost rest = vargs.skip(i as int);
        assert(rest.len() == args@.len() - i);
        assert(rest[0] == vargs[i as int]);
        let w = match &args[i] {
            Resp::Bulk(Some(w)) => w,
            _ => {
                return Err(
                    CommandError::InvalidArguments(
                        "Command Error: Invalid Arguments - Usage: REPLCONF listening-port | capa <ARGS>",
                    ),
                );
            },
        };
        assert(rest[0] == RespV::Bulk(Some(w@)));
        if eq_ignore_case_lower(w.as_slice(), "capa".as_bytes()) {
            if i + 1 >= args.len() {
                assert(rest.len() < 2);
                return Err(
                    CommandError::InvalidArguments(
                        "Command Error: Invalid Arguments - No valid value found after 'capa'",
                    ),
                );
            }
            assert(rest[1] == vargs[i + 1]);
            match &args[i + 1] {
                Resp::Bulk(Some(name)) => {
                    let ghost old_caps = caps.deep_view();
                    if !contains_bytes(&caps, name.as_slice()) {
                        caps.push(vstd::slice::slice_to_vec(name.as_slice()));
                        assert(caps.deep_view() =~~= old_caps.push(name@));
                    }
                    assert(caps.deep_view() == insert_unique(old_caps, name@));
                    proof {
                        assert(rest.skip(2) =~= vargs.skip(i + 2));
                    }
                    i += 2;
                },
                _ => {
                    return Err(
                        CommandError::InvalidArguments(
                            "Command Error: Invalid Arguments - No valid value found after 'capa'",
                        ),
                    );
                },
            }
        } else if eq_ignore_case_lower(w.as_slice(), "listening-port".as_bytes()) {
            if i + 1 >= args.len() {
                assert(rest.len() < 2);
                return Err(
                    CommandError::InvalidArguments(
                        "Command Error: Invalid Arguments - No valid value found after 'listening-port'",
                    ),
                );
            }
            assert(rest[1] == vargs[i + 1]);
            match &args[i + 1] {
                Resp::Bulk(Some(port)) => {
                    return Ok(
                        Command::Replconf(
                            ReplconfArgs::Port(vstd::slice::slice_to_vec(port.as_slice())),
                        ),
                    );
                },
                _ => {
                    return Err(
                        CommandError::InvalidArguments(
                            "Command Error: Invalid Arguments - No valid value found after 'listening-port'",
                        ),
                    );
                },
            }
        } else {
            return Err(
                CommandError::InvalidArguments(
                    "Command Error: Invalid Arguments - Unrecognized arguments",
                ),
            );
        }
    }
    assert(vargs.skip(i as int) =~= Seq::<RespV>::empty());
    Ok(Command::Replconf(ReplconfArgs::Capa(caps)))
}

pub fn parse_psync(args: &[Resp]) -> (r: Result<Command, CommandError>)
    ensures
        cmd_result_matches(r, spec_parse_psync(resp_view_list(args@))),
{
    proof {
        lemma_resp_view_list(args@);
    }
    if args.len() == 3 {
        match (&args[1], &args[2]) {
            (Resp::Bulk(Some(a)), Resp::Bulk(Some(b))) => {
                if eq_ignore_case_lower(a.as_slice(), "?".as_bytes()) {
                    if bytes_eq(b.as_slice(), "-1".as_bytes()) {
                        Ok(
                            Command::Psync(
                                PsyncArgs::Question(vstd::slice::slice_to_vec(b.as_slice())),
                            ),
                        )
                    } else {
                        Err(
                            CommandError::InvalidArguments(
                                "Command Error: Invalid Arguments - Byte offset should be -1 when querying for replid",
                            ),
                        )
                    }
                } else {
                    Ok(
                        Command::Psync(
                            PsyncArgs::Id(
                                vstd::slice::slice_to_vec(a.as_slice()),
                                vstd::slice::slice_to_vec(b.as_slice()),
                            ),
                        ),
                    )
                }
            },
            _ => Err(
                CommandError::InvalidArguments(
                    "Command Error: Invalid Arguments - Usage: PSYNC ? | <REPL_ID> <OFFSET>",
                ),
            ),
        }
    } else {
        Err(
            CommandError::InvalidArguments(
                "Command Error: Invalid Arguments - Usage: PSYNC ? | <REPL_ID> <OFFSET>",
            ),
        )
    }
}

/// The `+OK` status payload.
pub open spec fn ok_status() -> Seq<u8> {
    "OK".spec_bytes()
}

/// The `+PONG` status payload.
pub open spec fn pong_status() -> Seq<u8> {
    "PONG".spec_bytes()
}

/// The status a primary answers to the initial replication query: its
/// replication id and offset zero.
pub open spec fn fullresync_status(id: Seq<u8>) -> Seq<u8> {
    "FULLRESYNC ".spec_bytes() + id + " 0".spec_bytes()
}

/// The acknowledgment status carrying a replication offset.
pub open spec fn replconf_ack_status(offset: u64) -> Seq<u8> {
    "REPLCONF ACK ".spec_bytes() + crate::text::dec_nat(offset as int)
}

/// What dispatching a command does: the response values (or the error), the
/// keyspace afterwards, and the replication state afterwards.
pub open spec fn spec_execute(
    cmd: CommandV,
    m: Map<Seq<u8>, crate::server::QueryV>,
    i: crate::server::InfoV,
    now: u64,
) -> (Result<Seq<RespV>, CmdErrKind>, Map<Seq<u8>, crate::server::QueryV>, crate::server::InfoV) {
    match cmd {
        CommandV::Echo(p) => (Ok(seq![RespV::Bulk(Some(p))]), m, i),
        CommandV::Ping => (Ok(seq![RespV::SimpleString(pong_status())]), m, i),
        CommandV::Get(k) => (
            match crate::server::spec_get_result(m, k, now) {
                Some(v) => Ok(seq![RespV::Bulk(Some(v))]),
                None => Ok(seq![RespV::Null]),
            },
            crate::server::spec_get_map(m, k, now),
            i,
        ),
        CommandV::SetValue(k, v, ttl) => (
            Ok(seq![RespV::SimpleString(ok_status())]),
            m.insert(
                k,
                crate::server::QueryV {
                    value: v,
                    created_at: now,
                    expiry: crate::server::spec_expiry(now, ttl),
                },
            ),
            i,
        ),
        CommandV::Info(c) => (
            match c {
                Some(_) => Ok(seq![RespV::Bulk(Some(crate::server::spec_replication(i)))]),
                None => Ok(seq![RespV::Null]),
            },
            m,
            i,
        ),
        CommandV::Replconf(_) => (Ok(seq![RespV::SimpleString(ok_status())]), m, i),
        CommandV::Psync(PsyncArgsV::Question(_)) => (
            Ok(seq![RespV::SimpleString(fullresync_status(i.master_replid))]),
            m,
            i,
        ),
        CommandV::Psync(PsyncArgsV::Id(id, off)) => match spec_parse_u64(off) {
            Some(n) => (
                Ok(seq![RespV::SimpleString(replconf_ack_status(n))]),
                m,
                crate::server::InfoV { role: i.role, master_replid: id, master_repl_offset: n },
            ),
            None => (Err(CmdErrKind::InvalidArguments), m, i),
        },
    }
}

/// A one-element response list.
fn singleton(v: Resp) -> (r: Vec<Resp>)
    ensures
        resp_view_list(r@) == seq![v@],
{
    let mut r: Vec<Resp> = Vec::new();
    r.push(v);
    proof {
        lemma_resp_view_list(r@);
        assert(resp_view_list(r@) =~= seq![r@[0]@]);
    }
    r
}

/// Executes a command against the shared keyspace and replication state at
/// time `now` (milliseconds), and returns the unencoded response values,
/// exactly as `spec_execute` describes.
pub fn execute_command(
    cmd: Command,
    cache: &mut crate::server::Store,
    info: &mut crate::server::Info,
    now: u64,
) -> (r: Result<Vec<Resp>, CommandError>)
    requires
        old(cache).wf(),
    ensures
        final(cache).wf(),
        ({
            let (res, m2, i2) = spec_execute(cmd@, old(cache)@, old(info)@, now);
            &&& final(cache)@ == m2
            &&& final(info)@ == i2
            &&& (match (r, res) {
                (Ok(v), Ok(sv)) => resp_view_list(v@) == sv,
                (Err(e), Err(k)) => e@ == k,
                _ => false,
            })
        }),
{
    match cmd {
        Command::Echo(arg) => Ok(singleton(Resp::Bulk(Some(arg)))),
        Command::Ping => Ok(
            singleton(Resp::SimpleString(vstd::slice::slice_to_vec("PONG".as_bytes()))),
        ),
        Command::Get(key) => {
            match cache.get(key.as_slice(), now) {
                Some(value) => Ok(singleton(Resp::Bulk(Some(value)))),
                None => Ok(singleton(Resp::Null)),
            }
        },
        Command::SetValue(key, value, ttl) => {
            cache.set(key.as_slice(), value.as_slice(), ttl, now);
            Ok(singleton(Resp::SimpleString(vstd::slice::slice_to_vec("OK".as_bytes()))))
        },
        Command::Info(category) => {
            if category.is_some() {
                Ok(singleton(Resp::Bulk(Some(info.replication()))))
            } else {
                Ok(singleton(Resp::Null))
            }
        },
        Command::Replconf(_) => Ok(
            singleton(Resp::SimpleString(vstd::slice::slice_to_vec("OK".as_bytes()))),
        ),
        Command::Psync(p) => match p {
            PsyncArgs::Question(_) => {
                let mut status = vstd::slice::slice_to_vec("FULLRESYNC ".as_bytes());
                let mut id = info.id();
                status.append(&mut id);
                let mut suffix = vstd::slice::slice_to_vec(" 0".as_bytes());
                status.append(&mut suffix);
                Ok(singleton(Resp::SimpleString(status)))
            },
            PsyncArgs::Id(id, offset) => {
                match crate::text::parse_u64_bytes(offset.as_slice()) {
                    None => Err(
                        CommandError::InvalidArguments(
                            "Command Error: Invalid Arguments - byte offset must be a valid number",
                        ),
                    ),
                    Some(n) => {
                        info.master_replid = id;
                        info.master_repl_offset = n;
                        let mut status = vstd::slice::slice_to_vec("REPLCONF ACK ".as_bytes());
                        let mut digits = crate::text::u64_to_dec(n);
                        status.append(&mut digits);
                        Ok(singleton(Resp::SimpleString(status)))
                    },
                }
            },
        },
    }
}

} // verus!
