//! Laws of the dispatcher and the command parser, stated over the same
//! specification functions the executable contracts use. The codec's
//! round-trip law lives beside the codec itself
//! (`protocol::lemma_encode_decode_round_trip`).
use vstd::prelude::*;

use crate::command::{
    fullresync_status, insert_unique, spec_execute, spec_parse_psync, spec_parse_replconf,
    spec_replconf_scan, CmdErrKind, CommandV, PsyncArgsV, ReplconfArgsV,
};
use crate::protocol::RespV;
use crate::server::{spec_expired, spec_expiry, InfoV, QueryV};
use crate::text::lower_seq;
use vstd::string::StringSliceAdditionalSpecFns;

verus! {

/// Writing a key with no TTL and then reading it, at any later time, yields
/// exactly the value written; the write is the only change to the keyspace,
/// and the read changes nothing.
pub proof fn lemma_set_then_get(
    m: Map<Seq<u8>, QueryV>,
    i: InfoV,
    k: Seq<u8>,
    v: Seq<u8>,
    now1: u64,
    now2: u64,
)
    ensures
        ({
            let (r1, m1, i1) = spec_execute(CommandV::SetValue(k, v, None), m, i, now1);
            let (r2, m2, i2) = spec_execute(CommandV::Get(k), m1, i1, now2);
            &&& m1 == m.insert(k, QueryV { value: v, created_at: now1, expiry: None })
            &&& r2 == Ok::<Seq<RespV>, CmdErrKind>(seq![RespV::Bulk(Some(v))])
            &&& m2 == m1
            &&& i1 == i && i2 == i
        }),
{
    let (r1, m1, i1) = spec_execute(CommandV::SetValue(k, v, None), m, i, now1);
    assert(m1.contains_key(k));
    assert(!spec_expired(m1[k], now2));
}

/// A zero-millisecond TTL is already expired: writing with `PX 0` and
/// reading at or after the write time yields the null value, and the read
/// removes the entry.
pub proof fn lemma_set_px_zero_expires(
    m: Map<Seq<u8>, QueryV>,
    i: InfoV,
    k: Seq<u8>,
    v: Seq<u8>,
    now1: u64,
    now2: u64,
)
    requires
        now1 <= now2,
    ensures
        ({
            let (r1, m1, i1) = spec_execute(CommandV::SetValue(k, v, Some(0)), m, i, now1);
            let (r2, m2, i2) = spec_execute(CommandV::Get(k), m1, i1, now2);
            &&& r2 == Ok::<Seq<RespV>, CmdErrKind>(seq![RespV::Null])
            &&& m2 == m1.remove(k)
            &&& !m2.contains_key(k)
        }),
{
    let (r1, m1, i1) = spec_execute(CommandV::SetValue(k, v, Some(0)), m, i, now1);
    assert(m1[k].expiry == Some(now1)) by {
        assert(spec_expiry(now1, Some(0u64)) == Some(now1));
    }
    assert(spec_expired(m1[k], now2));
}

/// Reading a key never written yields the null value and leaves the
/// keyspace untouched, however often it is repeated.
pub proof fn lemma_get_absent(m: Map<Seq<u8>, QueryV>, i: InfoV, k: Seq<u8>, now: u64)
    requires
        !m.contains_key(k),
    ensures
        ({
            let (r, m2, i2) = spec_execute(CommandV::Get(k), m, i, now);
            &&& r == Ok::<Seq<RespV>, CmdErrKind>(seq![RespV::Null])
            &&& m2 == m
            &&& i2 == i
        }),
{
}

/// Reading an expired key yields the null value and removes the entry; an
/// immediate second read also yields null, and the keyspace is unchanged by
/// it: the entry is gone.
pub proof fn lemma_get_expired_idempotent(m: Map<Seq<u8>, QueryV>, i: InfoV, k: Seq<u8>, now: u64)
    requires
        m.contains_key(k),
        spec_expired(m[k], now),
    ensures
        ({
            let (r1, m1, i1) = spec_execute(CommandV::Get(k), m, i, now);
            let (r2, m2, i2) = spec_execute(CommandV::Get(k), m1, i1, now);
            &&& r1 == Ok::<Seq<RespV>, CmdErrKind>(seq![RespV::Null])
            &&& m1 == m.remove(k)
            &&& !m1.contains_key(k)
            &&& r2 == Ok::<Seq<RespV>, CmdErrKind>(seq![RespV::Null])
            &&& m2 == m1
        }),
{
}

/// A repeated capability name accumulates only once: after `capa x` twice,
/// the capability set holds exactly one name.
pub proof fn lemma_replconf_capa_duplicate(
    verb: RespV,
    w1: Seq<u8>,
    w2: Seq<u8>,
    x: Seq<u8>,
)
    requires
        lower_seq(w1) == "capa".spec_bytes(),
        lower_seq(w2) == "capa".spec_bytes(),
    ensures
        spec_parse_replconf(
            seq![
                verb,
                RespV::Bulk(Some(w1)),
                RespV::Bulk(Some(x)),
                RespV::Bulk(Some(w2)),
                RespV::Bulk(Some(x)),
            ],
        ) == Ok::<CommandV, CmdErrKind>(
            CommandV::Replconf(ReplconfArgsV::Capa(seq![x])),
        ),
{
    let args = seq![
        verb,
        RespV::Bulk(Some(w1)),
        RespV::Bulk(Some(x)),
        RespV::Bulk(Some(w2)),
        RespV::Bulk(Some(x)),
    ];
    let rest1 = args.drop_first();
    assert(rest1 =~= seq![
        RespV::Bulk(Some(w1)),
        RespV::Bulk(Some(x)),
        RespV::Bulk(Some(w2)),
        RespV::Bulk(Some(x)),
    ]);
    let caps1 = insert_unique(Seq::empty(), x);
    assert(!Seq::<Seq<u8>>::empty().contains(x));
    assert(caps1 =~= seq![x]);
    let rest2 = rest1.skip(2);
    assert(rest2 =~= seq![RespV::Bulk(Some(w2)), RespV::Bulk(Some(x))]);
    let caps2 = insert_unique(caps1, x);
    assert(caps1.contains(x)) by {
        assert(caps1[0] == x);
    }
    assert(caps2 == caps1);
    let rest3 = rest2.skip(2);
    assert(rest3 =~= Seq::<RespV>::empty());
    assert(spec_replconf_scan(rest3, caps2) == Ok::<CommandV, CmdErrKind>(
        CommandV::Replconf(ReplconfArgsV::Capa(caps2)),
    ));
    assert(spec_replconf_scan(rest2, caps1) == spec_replconf_scan(rest3, caps2));
    assert(spec_replconf_scan(rest1, Seq::empty()) == spec_replconf_scan(rest2, caps1));
}

/// The initial replication query is answered with exactly the primary's
/// replication id and offset zero, and changes nothing.
pub proof fn lemma_psync_initial(
    m: Map<Seq<u8>, QueryV>,
    i: InfoV,
    q: Seq<u8>,
    now: u64,
)
    ensures
        ({
            let (r, m2, i2) = spec_execute(CommandV::Psync(PsyncArgsV::Question(q)), m, i, now);
            &&& r == Ok::<Seq<RespV>, CmdErrKind>(
                seq![RespV::SimpleString(fullresync_status(i.master_replid))],
            )
            &&& m2 == m
            &&& i2 == i
        }),
{
}

/// `PSYNC ?` with any offset other than `-1` is rejected as invalid
/// arguments.
pub proof fn lemma_psync_question_needs_minus_one(verb: RespV, a: Seq<u8>, b: Seq<u8>)
    requires
        lower_seq(a) == "?".spec_bytes(),
        b != "-1".spec_bytes(),
    ensures
        spec_parse_psync(seq![verb, RespV::Bulk(Some(a)), RespV::Bulk(Some(b))]) == Err::<
            CommandV,
            CmdErrKind,
        >(CmdErrKind::InvalidArguments),
{
    let args = seq![verb, RespV::Bulk(Some(a)), RespV::Bulk(Some(b))];
    assert(args.len() == 3);
    assert(args[1] == RespV::Bulk(Some(a)));
    assert(args[2] == RespV::Bulk(Some(b)));
}

} // verus!
