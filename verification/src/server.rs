//! The TTL-aware keyspace store and the replication state of this node.
use vstd::prelude::*;

use crate::protocol::{
    lemma_resp_view_list, resp_view_list, spec_encode, Resp, RespEncoding, RespV,
};
use crate::text::dec_nat;
use vstd::string::StringSliceAdditionalSpecFns;

verus! {

/// The role a server instance takes, fixed at startup.
#[derive(Debug, PartialEq, Eq, Structural, Clone, Copy)]
pub enum Role {
    Master,
    Slave,
}

/// The replication id every instance starts with.
pub open spec fn default_replid() -> Seq<u8> {
    "8371b4fb1155b71f4a04d3e1bc3e18c4a990aeeb".spec_bytes()
}

/// This node's replication state: its role, replication id, and offset.
pub struct Info {
    pub role: Role,
    pub master_replid: Vec<u8>,
    pub master_repl_offset: u64,
}

/// The mathematical shape of the replication state.
#[verifier::ext_equal]
pub struct InfoV {
    pub role: Role,
    pub master_replid: Seq<u8>,
    pub master_repl_offset: u64,
}

impl View for Info {
    type V = InfoV;

    open spec fn view(&self) -> InfoV {
        InfoV {
            role: self.role,
            master_replid: self.master_replid@,
            master_repl_offset: self.master_repl_offset,
        }
    }
}

/// The `role:` line of the replication block.
pub open spec fn spec_role_line(role: Role) -> Seq<u8> {
    match role {
        Role::Master => "role:master".spec_bytes(),
        Role::Slave => "role:slave".spec_bytes(),
    }
}

impl Info {
    /// A fresh state with the fixed initial replication id and offset zero.
    pub fn new(role: Role) -> (r: Info)
        ensures
            r.role == role,
            r.master_replid@ == default_replid(),
            r.master_repl_offset == 0,
    {
        Info {
            role,
            master_replid: vstd::slice::slice_to_vec(
                "8371b4fb1155b71f4a04d3e1bc3e18c4a990aeeb".as_bytes(),
            ),
            master_repl_offset: 0,
        }
    }

    /// The `role:` line for this node.
    pub fn role(&self) -> (r: Vec<u8>)
        ensures
            r@ == spec_role_line(self.role),
    {
        match self.role {
            Role::Master => vstd::slice::slice_to_vec("role:master".as_bytes()),
            Role::Slave => vstd::slice::slice_to_vec("role:slave".as_bytes()),
        }
    }

    /// This node's replication id.
    pub fn id(&self) -> (r: Vec<u8>)
        ensures
            r@ == self.master_replid@,
    {
        vstd::slice::slice_to_vec(self.master_replid.as_slice())
    }

    /// Produces exactly the replication block `spec_replication` describes.
    pub fn replication(&self) -> (r: Vec<u8>)
        ensures
            r@ == spec_replication(self@),
    {
        let mut r = vstd::slice::slice_to_vec("# Replication\n".as_bytes());
        let mut role_line = self.role();
        r.append(&mut role_line);
        let mut replid_label = vstd::slice::slice_to_vec("\nmaster_replid:".as_bytes());
        r.append(&mut replid_label);
        let mut replid = self.id();
        r.append(&mut replid);
        let mut offset_label = vstd::slice::slice_to_vec("\nmaster_repl_offset:".as_bytes());
        r.append(&mut offset_label);
        let mut offset = crate::text::u64_to_dec(self.master_repl_offset);
        r.append(&mut offset);
        r
    }
}

/// The replication block served to INFO: the role, replication id and
/// offset, one `name:value` line each.
pub open spec fn spec_replication(i: InfoV) -> Seq<u8> {
    "# Replication\n".spec_bytes() + spec_role_line(i.role) + "\nmaster_replid:".spec_bytes()
        + i.master_replid + "\nmaster_repl_offset:".spec_bytes() + dec_nat(
        i.master_repl_offset as int,
    )
}

/// One keyspace entry: the stored bytes, when they were written, and the
/// absolute expiry in milliseconds, if any.
#[derive(Debug, Clone)]
pub struct Query {
    pub value: Vec<u8>,
    pub created_at: u64,
    pub expiry: Option<u64>,
}

/// The mathematical shape of a keyspace entry.
#[verifier::ext_equal]
pub struct QueryV {
    pub value: Seq<u8>,
    pub created_at: u64,
    pub expiry: Option<u64>,
}

impl View for Query {
    type V = QueryV;

    open spec fn view(&self) -> QueryV {
        QueryV { value: self.value@, created_at: self.created_at, expiry: self.expiry }
    }
}

/// The keyspace: a mapping from key to entry. Expiry is enforced lazily, on
/// read; expired entries stay resident until read or overwritten.
pub struct Store {
    entries: Vec<(Vec<u8>, Query)>,
}

/// The map a run of entries denotes; later entries win, though `wf` keeps
/// keys unique.
pub open spec fn store_map(s: Seq<(Vec<u8>, Query)>) -> Map<Seq<u8>, QueryV>
    decreases s.len(),
{
    if s.len() == 0 {
        Map::empty()
    } else {
        store_map(s.drop_last()).insert(s.last().0@, s.last().1@)
    }
}

impl View for Store {
    type V = Map<Seq<u8>, QueryV>;

    closed spec fn view(&self) -> Map<Seq<u8>, QueryV> {
        store_map(self.entries@)
    }
}

/// Whether an entry is expired at `now`: its expiry exists and is at or
/// before the current time.
pub open spec fn spec_expired(q: QueryV, now: u64) -> bool {
    match q.expiry {
        Some(e) => e <= now,
        None => false,
    }
}

/// The absolute expiry a `SET` records: now plus the TTL, saturating.
pub open spec fn spec_expiry(now: u64, ttl_millis: Option<u64>) -> Option<u64> {
    match ttl_millis {
        None => None,
        Some(t) => Some(
            if now + t > u64::MAX {
                u64::MAX
            } else {
                (now + t) as u64
            },
        ),
    }
}

/// What `get` returns: the stored bytes, unless the key is absent or its
/// entry has expired.
pub open spec fn spec_get_result(m: Map<Seq<u8>, QueryV>, k: Seq<u8>, now: u64) -> Option<
    Seq<u8>,
> {
    if m.contains_key(k) && !spec_expired(m[k], now) {
        Some(m[k].value)
    } else {
        None
    }
}

/// What the store holds after `get`: unchanged, except that a present but
/// expired entry is removed.
pub open spec fn spec_get_map(m: Map<Seq<u8>, QueryV>, k: Seq<u8>, now: u64) -> Map<
    Seq<u8>,
    QueryV,
> {
    if m.contains_key(k) && spec_expired(m[k], now) {
        m.remove(k)
    } else {
        m
    }
}

proof fn lemma_store_map_props(s: Seq<(Vec<u8>, Query)>)
    ensures
        forall|k: Seq<u8>|
            store_map(s).contains_key(k) <==> exists|i: int|
                0 <= i < s.len() && (#[trigger] s[i]).0@ == k,
    decreases s.len(),
{
    if s.len() > 0 {
        lemma_store_map_props(s.drop_last());
        assert forall|k: Seq<u8>| store_map(s).contains_key(k) implies exists|i: int|
            0 <= i < s.len() && (#[trigger] s[i]).0@ == k by {
            if s.last().0@ == k {
                assert(s[s.len() - 1].0@ == k);
            } else {
                assert(store_map(s.drop_last()).contains_key(k));
                let i = choose|i: int| 0 <= i < s.len() - 1 && (#[trigger] s.drop_last()[i]).0@
                    == k;
                assert(s[i].0@ == k);
            }
        }
        assert forall|k: Seq<u8>|
            (exists|i: int| 0 <= i < s.len() && (#[trigger] s[i]).0@ == k) implies store_map(
            s,
        ).contains_key(k) by {
            let i = choose|i: int| 0 <= i < s.len() && (#[trigger] s[i]).0@ == k;
            if i == s.len() - 1 {
                assert(s.last().0@ == k);
                assert(store_map(s) == store_map(s.drop_last()).insert(k, s.last().1@));
                assert(store_map(s).contains_key(k));
            } else {
                assert(s.drop_last()[i].0@ == k);
                assert(store_map(s.drop_last()).contains_key(k));
                assert(store_map(s).contains_key(k));
            }
        }
    }
}

/// Unique keys.
pub open spec fn store_wf(s: Seq<(Vec<u8>, Query)>) -> bool {
    forall|i: int, j: int|
        0 <= i < j < s.len() ==> (#[trigger] s[i]).0@ != (#[trigger] s[j]).0@
}

proof fn lemma_store_map_index(s: Seq<(Vec<u8>, Query)>, i: int)
    requires
        store_wf(s),
        0 <= i < s.len(),
    ensures
        store_map(s).contains_key(s[i].0@),
        store_map(s)[s[i].0@] == s[i].1@,
    decreases s.len(),
{
    lemma_store_map_props(s);
    if i == s.len() - 1 {
    } else {
        assert(store_wf(s.drop_last()));
        lemma_store_map_index(s.drop_last(), i);
        assert(s.last().0@ != s[i].0@);
    }
}

proof fn lemma_store_map_remove(s: Seq<(Vec<u8>, Query)>, i: int)
    requires
        store_wf(s),
        0 <= i < s.len(),
    ensures
        store_map(s.remove(i)) =~= store_map(s).remove(s[i].0@),
    decreases s.len(),
{
    lemma_store_map_props(s);
    lemma_store_map_props(s.remove(i));
    if i == s.len() - 1 {
        assert(s.remove(i) =~= s.drop_last());
        assert(!store_map(s.drop_last()).contains_key(s[i].0@)) by {
            lemma_store_map_props(s.drop_last());
            if store_map(s.drop_last()).contains_key(s[i].0@) {
                let j = choose|j: int|
                    0 <= j < s.len() - 1 && (#[trigger] s.drop_last()[j]).0@ == s[i].0@;
                assert(s[j].0@ == s[i].0@);
            }
        }
        assert(store_map(s).remove(s[i].0@) =~= store_map(s.drop_last()));
    } else {
        assert(store_wf(s.drop_last()));
        lemma_store_map_remove(s.drop_last(), i);
        assert(s.remove(i).drop_last() =~= s.drop_last().remove(i));
        assert(s.remove(i).last() == s.last());
        assert(store_map(s.remove(i)) == store_map(s.drop_last().remove(i)).insert(
            s.last().0@,
            s.last().1@,
        ));
        assert(store_map(s.remove(i)) =~= store_map(s).remove(s[i].0@)) by {
            assert(store_map(s.drop_last().remove(i)) =~= store_map(s.drop_last()).remove(
                s[i].0@,
            ));
            assert(s[i].0@ != s.last().0@);
        }
    }
}

impl Store {
    /// Unique keys among the entries.
    pub closed spec fn wf(self) -> bool {
        store_wf(self.entries@)
    }

    /// An empty keyspace.
    pub fn new() -> (r: Store)
        ensures
            r.wf(),
            r@ == Map::<Seq<u8>, QueryV>::empty(),
    {
        Store { entries: Vec::new() }
    }

    /// The position of a key among the entries, if present.
    fn find_index(&self, key: &[u8]) -> (r: Option<usize>)
        ensures
            match r {
                Some(i) => i < self.entries@.len() && self.entries@[i as int].0@ == key@,
                None => forall|j: int|
                    0 <= j < self.entries@.len() ==> (#[trigger] self.entries@[j]).0@ != key@,
            },
    {
        let mut j: usize = 0;
        while j < self.entries.len()
            invariant
                0 <= j <= self.entries@.len(),
                forall|k: int| 0 <= k < j ==> (#[trigger] self.entries@[k]).0@ != key@,
            decreases self.entries@.len() - j,
        {
            if crate::text::bytes_eq(self.entries[j].0.as_slice(), key) {
                return Some(j);
            }
            j += 1;
        }
        None
    }

    /// Writes `key`, overwriting unconditionally; records the write time and
    /// the absolute expiry, if a TTL is given.
    pub fn set(&mut self, key: &[u8], value: &[u8], ttl_millis: Option<u64>, now: u64)
        requires
            old(self).wf(),
        ensures
            final(self).wf(),
            final(self)@ == old(self)@.insert(
                key@,
                QueryV { value: value@, created_at: now, expiry: spec_expiry(now, ttl_millis) },
            ),
    {
        let expiry = match ttl_millis {
            Some(t) => Some(now.saturating_add(t)),
            None => None,
        };
        let q = Query { value: vstd::slice::slice_to_vec(value), created_at: now, expiry };
        let ghost s0 = self.entries@;
        match self.find_index(key) {
            Some(i) => {
                proof {
                    lemma_store_map_remove(s0, i as int);
                }
                self.entries.remove(i);
                assert(store_wf(self.entries@)) by {
                    assert(forall|a: int, b: int|
                        0 <= a < b < self.entries@.len() ==> (#[trigger] self.entries@[a]).0@ != (
                        #[trigger] self.entries@[b]).0@);
                }
                assert(forall|j: int|
                    0 <= j < self.entries@.len() ==> (#[trigger] self.entries@[j]).0@ != key@) by {
                    assert(forall|j: int|
                        0 <= j < s0.len() && j != i ==> (#[trigger] s0[j]).0@ != key@);
                }
            },
            None => {},
        }
        let ghost s1 = self.entries@;
        self.entries.push((vstd::slice::slice_to_vec(key), q));
        proof {
            assert(self.entries@.drop_last() =~= s1);
            assert(self.entries@.last().0@ == key@);
            assert(self.entries@.last().1@ == QueryV {
                value: value@,
                created_at: now,
                expiry: spec_expiry(now, ttl_millis),
            });
            assert(store_map(self.entries@) == store_map(s1).insert(
                key@,
                self.entries@.last().1@,
            ));
            assert(self.wf()) by {
                assert(forall|j: int| 0 <= j < s1.len() ==> (#[trigger] s1[j]).0@ != key@);
            }
            assert(self@ =~= old(self)@.insert(
                key@,
                QueryV { value: value@, created_at: now, expiry: spec_expiry(now, ttl_millis) },
            )) by {
                lemma_store_map_props(s0);
                lemma_store_map_props(s1);
            }
        }
    }

    /// Reads `key` at time `now`. A present, unexpired entry yields its
    /// bytes; a present but expired entry is removed and treated as absent.
    pub fn get(&mut self, key: &[u8], now: u64) -> (r: Option<Vec<u8>>)
        requires
            old(self).wf(),
        ensures
            final(self).wf(),
            match r {
                Some(v) => spec_get_result(old(self)@, key@, now) == Some(v@),
                None => spec_get_result(old(self)@, key@, now) is None,
            },
            final(self)@ == spec_get_map(old(self)@, key@, now),
    {
        let ghost s0 = self.entries@;
        proof {
            lemma_store_map_props(s0);
        }
        match self.find_index(key) {
            None => {
                assert(!store_map(s0).contains_key(key@));
                None
            },
            Some(i) => {
                proof {
                    lemma_store_map_index(s0, i as int);
                }
                let expired = match self.entries[i].1.expiry {
                    Some(e) => e <= now,
                    None => false,
                };
                if expired {
                    proof {
                        lemma_store_map_remove(s0, i as int);
                    }
                    self.entries.remove(i);
                    assert(store_wf(self.entries@)) by {
                        assert(forall|a: int, b: int|
                            0 <= a < b < self.entries@.len() ==> (#[trigger] self.entries@[a]).0@
                                != (#[trigger] self.entries@[b]).0@);
                    }
                    assert(self@ =~= spec_get_map(old(self)@, key@, now));
                    None
                } else {
                    let v = vstd::slice::slice_to_vec(self.entries[i].1.value.as_slice());
                    assert(self@ =~= spec_get_map(old(self)@, key@, now));
                    Some(v)
                }
            },
        }
    }
}

/// The three requests a replica sends to its primary at startup, in strict
/// order: PING, then REPLCONF listening-port with its own port, then
/// REPLCONF capa psync2. Each is one encoded Array of Bulk values; the
/// caller writes one, reads one reply, and only then sends the next.
pub open spec fn spec_handshake_requests(port: u16) -> Seq<Seq<u8>> {
    seq![
        spec_encode(RespV::Array(seq![RespV::Bulk(Some("ping".spec_bytes()))])),
        spec_encode(
            RespV::Array(
                seq![
                    RespV::Bulk(Some("REPLCONF".spec_bytes())),
                    RespV::Bulk(Some("listening-port".spec_bytes())),
                    RespV::Bulk(Some(dec_nat(port as int))),
                ],
            ),
        ),
        spec_encode(
            RespV::Array(
                seq![
                    RespV::Bulk(Some("REPLCONF".spec_bytes())),
                    RespV::Bulk(Some("capa".spec_bytes())),
                    RespV::Bulk(Some("psync2".spec_bytes())),
                ],
            ),
        ),
    ]
}

/// Builds exactly the request bytes `spec_handshake_requests` describes.
pub fn handshake_requests(port: u16) -> (r: Vec<Vec<u8>>)
    ensures
        r.deep_view() == spec_handshake_requests(port),
{
    let mut ping_items: Vec<Resp> = Vec::new();
    ping_items.push(Resp::Bulk(Some(vstd::slice::slice_to_vec("ping".as_bytes()))));
    let ping = Resp::Array(ping_items);
    proof {
        lemma_resp_view_list(ping->Array_0@);
        assert(ping@ =~~= RespV::Array(seq![RespV::Bulk(Some("ping".spec_bytes()))]));
    }
    let msg0 = ping.encode();

    let mut port_items: Vec<Resp> = Vec::new();
    let b0 = Resp::Bulk(Some(vstd::slice::slice_to_vec("REPLCONF".as_bytes())));
    let b1 = Resp::Bulk(Some(vstd::slice::slice_to_vec("listening-port".as_bytes())));
    let b2 = Resp::Bulk(Some(crate::text::u64_to_dec(port as u64)));
    let ghost w0 = b0@;
    let ghost w1 = b1@;
    let ghost w2 = b2@;
    port_items.push(b0);
    assert(port_items@[0]@ == w0);
    port_items.push(b1);
    assert(port_items@[0]@ == w0 && port_items@[1]@ == w1);
    port_items.push(b2);
    assert(port_items@[0]@ == w0 && port_items@[1]@ == w1 && port_items@[2]@ == w2);
    let port_req = Resp::Array(port_items);
    proof {
        lemma_resp_view_list(port_req->Array_0@);
        assert(port_req->Array_0@.len() == 3);
        assert(resp_view_list(port_req->Array_0@)[0] == w0);
        assert(resp_view_list(port_req->Array_0@)[1] == w1);
        assert(resp_view_list(port_req->Array_0@)[2] == w2);
        assert(resp_view_list(port_req->Array_0@) =~= seq![
            RespV::Bulk(Some("REPLCONF".spec_bytes())),
            RespV::Bulk(Some("listening-port".spec_bytes())),
            RespV::Bulk(Some(dec_nat(port as int))),
        ]);
        assert(port_req@ == RespV::Array(
            seq![
                RespV::Bulk(Some("REPLCONF".spec_bytes())),
                RespV::Bulk(Some("listening-port".spec_bytes())),
                RespV::Bulk(Some(dec_nat(port as int))),
            ],
        ));
    }
    let msg1 = port_req.encode();

    let mut capa_items: Vec<Resp> = Vec::new();
    let c0 = Resp::Bulk(Some(vstd::slice::slice_to_vec("REPLCONF".as_bytes())));
    let c1 = Resp::Bulk(Some(vstd::slice::slice_to_vec("capa".as_bytes())));
    let c2 = Resp::Bulk(Some(vstd::slice::slice_to_vec("psync2".as_bytes())));
    let ghost x0 = c0@;
    let ghost x1 = c1@;
    let ghost x2 = c2@;
    capa_items.push(c0);
    assert(capa_items@[0]@ == x0);
    capa_items.push(c1);
    assert(capa_items@[0]@ == x0 && capa_items@[1]@ == x1);
    capa_items.push(c2);
    assert(capa_items@[0]@ == x0 && capa_items@[1]@ == x1 && capa_items@[2]@ == x2);
    let capa_req = Resp::Array(capa_items);
    proof {
        lemma_resp_view_list(capa_req->Array_0@);
        assert(capa_req->Array_0@.len() == 3);
        assert(resp_view_list(capa_req->Array_0@)[0] == x0);
        assert(resp_view_list(capa_req->Array_0@)[1] == x1);
        assert(resp_view_list(capa_req->Array_0@)[2] == x2);
        assert(resp_view_list(capa_req->Array_0@) =~= seq![
            RespV::Bulk(Some("REPLCONF".spec_bytes())),
            RespV::Bulk(Some("capa".spec_bytes())),
            RespV::Bulk(Some("psync2".spec_bytes())),
        ]);
        assert(capa_req@ == RespV::Array(
            seq![
                RespV::Bulk(Some("REPLCONF".spec_bytes())),
                RespV::Bulk(Some("capa".spec_bytes())),
                RespV::Bulk(Some("psync2".spec_bytes())),
            ],
        ));
    }
    let msg2 = capa_req.encode();

    let mut out: Vec<Vec<u8>> = Vec::new();
    out.push(msg0);
    out.push(msg1);
    out.push(msg2);
    proof {
        assert(out.deep_view() =~~= spec_handshake_requests(port));
    }
    out
}

/// ASCII whitespace, as the address tokenizer understands it.
pub open spec fn is_space(b: u8) -> bool {
    b == 32 || b == 9 || b == 10 || b == 13 || b == 11 || b == 12
}

/// The index of the first whitespace byte, or the length if there is none.
pub open spec fn first_space(s: Seq<u8>) -> int
    decreases s.len(),
{
    if s.len() == 0 {
        0
    } else if is_space(s[0]) {
        0
    } else {
        1 + first_space(s.drop_first())
    }
}

pub proof fn lemma_first_space_props(s: Seq<u8>)
    ensures
        0 <= first_space(s) <= s.len(),
        forall|j: int| 0 <= j < first_space(s) ==> !is_space(s[j]),
        first_space(s) < s.len() ==> is_space(s[first_space(s)]),
    decreases s.len(),
{
    if s.len() > 0 && !is_space(s[0]) {
        lemma_first_space_props(s.drop_first());
        assert forall|j: int| 0 <= j < first_space(s) implies !is_space(s[j]) by {
            if j > 0 {
                assert(s.drop_first()[j - 1] == s[j]);
                assert(!is_space(s.drop_first()[j - 1]));
            }
        }
        if first_space(s) < s.len() {
            assert(s.drop_first()[first_space(s.drop_first())] == s[first_space(s)]);
        }
    }
}

/// The whitespace-separated tokens of a byte string, in order.
pub open spec fn spec_tokens(s: Seq<u8>) -> Seq<Seq<u8>>
    decreases s.len(),
    via spec_tokens_decreases
{
    if s.len() == 0 {
        Seq::empty()
    } else if is_space(s[0]) {
        spec_tokens(s.drop_first())
    } else {
        seq![s.take(first_space(s))] + spec_tokens(s.skip(first_space(s)))
    }
}

#[via_fn]
proof fn spec_tokens_decreases(s: Seq<u8>) {
    lemma_first_space_props(s);
}

/// The index of the first colon, or the length if there is none.
pub open spec fn first_colon(s: Seq<u8>) -> int
    decreases s.len(),
{
    if s.len() == 0 {
        0
    } else if s[0] == 58 {
        0
    } else {
        1 + first_colon(s.drop_first())
    }
}

pub proof fn lemma_first_colon_props(s: Seq<u8>)
    ensures
        0 <= first_colon(s) <= s.len(),
        forall|j: int| 0 <= j < first_colon(s) ==> s[j] != 58,
        first_colon(s) < s.len() ==> s[first_colon(s)] == 58,
    decreases s.len(),
{
    if s.len() > 0 && s[0] != 58 {
        lemma_first_colon_props(s.drop_first());
        assert forall|j: int| 0 <= j < first_colon(s) implies s[j] != 58 by {
            if j > 0 {
                assert(s.drop_first()[j - 1] == s[j]);
                assert(s.drop_first()[j - 1] != 58);
            }
        }
        if first_colon(s) < s.len() {
            assert(s.drop_first()[first_colon(s.drop_first())] == s[first_colon(s)]);
        }
    }
}

/// The colon-separated parts of a byte string, empties kept: one part more
/// than there are colons.
pub open spec fn split_colons(s: Seq<u8>) -> Seq<Seq<u8>>
    decreases s.len(),
    via split_colons_decreases
{
    if first_colon(s) == s.len() {
        seq![s]
    } else {
        seq![s.take(first_colon(s))] + split_colons(s.skip(first_colon(s) + 1))
    }
}

#[via_fn]
proof fn split_colons_decreases(s: Seq<u8>) {
    lemma_first_colon_props(s);
}

fn is_space_byte(b: u8) -> (r: bool)
    ensures
        r == is_space(b),
{
    b == 32 || b == 9 || b == 10 || b == 13 || b == 11 || b == 12
}

/// Splits a byte string into its whitespace-separated tokens.
#[verifier::loop_isolation(false)]
fn tokenize(b: &[u8]) -> (r: Vec<Vec<u8>>)
    ensures
        r.deep_view() == spec_tokens(b@),
{
    let mut toks: Vec<Vec<u8>> = Vec::new();
    let mut pos: usize = 0;
    assert(toks.deep_view() =~= Seq::<Seq<u8>>::empty());
    assert(b@.skip(0) =~= b@);
    while pos < b.len()
        invariant
            0 <= pos <= b@.len(),
            spec_tokens(b@) == toks.deep_view() + spec_tokens(b@.skip(pos as int)),
        decreases b@.len() - pos,
    {
        let ghost rest = b@.skip(pos as int);
        assert(rest[0] == b@[pos as int]);
        if is_space_byte(b[pos]) {
            proof {
                assert(rest.drop_first() =~= b@.skip(pos + 1));
            }
            pos += 1;
        } else {
            let start = pos;
            pos += 1;
            while pos < b.len() && !is_space_byte(b[pos])
                invariant
                    start < pos <= b@.len(),
                    forall|j: int| start <= j < pos ==> !is_space(b@[j]),
                decreases b@.len() - pos,
            {
                pos += 1;
            }
            proof {
                let sub = b@.skip(start as int);
                let n = pos - start;
                lemma_first_space_props(sub);
                assert(forall|j: int| 0 <= j < n ==> sub[j] == b@[start + j]);
                assert(forall|j: int| 0 <= j < n ==> !is_space(sub[j]));
                if first_space(sub) < n {
                    assert(is_space(sub[first_space(sub)]));
                }
                if first_space(sub) > n {
                    assert(n < sub.len());
                    assert(sub[n as int] == b@[pos as int]);
                    assert(is_space(sub[n as int]));
                    assert(!is_space(sub[n as int]));
                }
                assert(first_space(sub) == n);
                assert(sub.take(n as int) =~= b@.subrange(start as int, pos as int));
                assert(sub.skip(n as int) =~= b@.skip(pos as int));
                assert(spec_tokens(sub) == seq![b@.subrange(start as int, pos as int)]
                    + spec_tokens(b@.skip(pos as int)));
            }
            let ghost old_toks = toks.deep_view();
            toks.push(vstd::slice::slice_to_vec(vstd::slice::slice_subrange(b, start, pos)));
            proof {
                assert(toks.deep_view() =~~= old_toks.push(
                    b@.subrange(start as int, pos as int),
                ));
                assert(old_toks.push(b@.subrange(start as int, pos as int)) =~= old_toks + seq![
                    b@.subrange(start as int, pos as int),
                ]);
                assert(old_toks + (seq![b@.subrange(start as int, pos as int)] + spec_tokens(
                    b@.skip(pos as int),
                )) =~= (old_toks + seq![b@.subrange(start as int, pos as int)]) + spec_tokens(
                    b@.skip(pos as int),
                ));
            }
        }
    }
    proof {
        assert(b@.skip(pos as int) =~= Seq::<u8>::empty());
        assert(spec_tokens(Seq::<u8>::empty()) == Seq::<Seq<u8>>::empty());
        assert(toks.deep_view() + Seq::<Seq<u8>>::empty() =~= toks.deep_view());
    }
    toks
}

/// Splits a byte string at every colon, keeping empty parts.
#[verifier::loop_isolation(false)]
fn split_on_colons(b: &[u8]) -> (r: Vec<Vec<u8>>)
    ensures
        r.deep_view() == split_colons(b@),
{
    let mut parts: Vec<Vec<u8>> = Vec::new();
    let mut pos: usize = 0;
    assert(parts.deep_view() =~= Seq::<Seq<u8>>::empty());
    assert(b@.skip(0) =~= b@);
    loop
        invariant
            0 <= pos <= b@.len(),
            split_colons(b@) == parts.deep_view() + split_colons(b@.skip(pos as int)),
        decreases b@.len() - pos,
    {
        let ghost sub = b@.skip(pos as int);
        let start = pos;
        let mut q = pos;
        while q < b.len() && b[q] != 58
            invariant
                start <= q <= b@.len(),
                forall|j: int| start <= j < q ==> b@[j] != 58,
            decreases b@.len() - q,
        {
            q += 1;
        }
        proof {
            let n = q - start;
            lemma_first_colon_props(sub);
            assert(forall|j: int| 0 <= j < n ==> sub[j] == b@[start + j]);
            if first_colon(sub) < n {
                assert(sub[first_colon(sub)] == 58);
            }
            if first_colon(sub) > n {
                assert(n < sub.len());
                assert(sub[n as int] == b@[q as int]);
            }
            assert(first_colon(sub) == n);
            assert(sub.take(n as int) =~= b@.subrange(start as int, q as int));
        }
        let ghost old_parts = parts.deep_view();
        parts.push(vstd::slice::slice_to_vec(vstd::slice::slice_subrange(b, start, q)));
        proof {
            assert(parts.deep_view() =~~= old_parts.push(b@.subrange(start as int, q as int)));
        }
        if q == b.len() {
            proof {
                assert(sub.take((q - start) as int) =~= sub);
                assert(split_colons(sub) == seq![sub]);
                assert(old_parts + seq![sub] =~= old_parts.push(sub));
                assert(sub =~= b@.subrange(start as int, q as int));
            }
            break;
        }
        proof {
            assert(sub.skip((q - start) as int + 1) =~= b@.skip(q + 1));
            assert(split_colons(sub) == seq![b@.subrange(start as int, q as int)] + split_colons(
                b@.skip(q + 1),
            ));
            assert(old_parts + (seq![b@.subrange(start as int, q as int)] + split_colons(
                b@.skip(q + 1),
            )) =~= old_parts.push(b@.subrange(start as int, q as int)) + split_colons(
                b@.skip(q + 1),
            ));
        }
        pos = q + 1;
    }
    parts
}

/// A dotted-quad octet: one to three digits, no leading zero, value at
/// most 255.
pub open spec fn valid_octet(s: Seq<u8>) -> bool {
    &&& 1 <= s.len() <= 3
    &&& crate::text::all_digits(s)
    &&& (s[0] != 48 || s.len() == 1)
    &&& crate::text::digits_val(s) <= 255
}

/// The three dot positions of a dotted-quad literal, with all four octets
/// valid.
pub open spec fn ipv4_dots(s: Seq<u8>, i: int, j: int, k: int) -> bool {
    &&& 0 <= i < j < k < s.len()
    &&& s[i] == 46 && s[j] == 46 && s[k] == 46
    &&& valid_octet(s.subrange(0, i))
    &&& valid_octet(s.subrange(i + 1, j))
    &&& valid_octet(s.subrange(j + 1, k))
    &&& valid_octet(s.subrange(k + 1, s.len() as int))
}

/// An IPv4 literal: four valid octets separated by dots.
pub open spec fn valid_ipv4(s: Seq<u8>) -> bool {
    exists|i: int, j: int, k: int| ipv4_dots(s, i, j, k)
}

/// Every position of a dotted-quad literal other than its three dots holds
/// a digit, so the dots are exactly the dot positions.
proof fn lemma_ipv4_positions(s: Seq<u8>, i: int, j: int, k: int, q: int)
    requires
        ipv4_dots(s, i, j, k),
        0 <= q < s.len(),
        q != i && q != j && q != k,
    ensures
        crate::text::is_digit(s[q]),
        s[q] != 46,
{
    if q < i {
        assert(s.subrange(0, i)[q] == s[q]);
        assert(crate::text::is_digit(s.subrange(0, i)[q]));
    } else if q < j {
        assert(s.subrange(i + 1, j)[q - i - 1] == s[q]);
        assert(crate::text::is_digit(s.subrange(i + 1, j)[q - i - 1]));
    } else if q < k {
        assert(s.subrange(j + 1, k)[q - j - 1] == s[q]);
        assert(crate::text::is_digit(s.subrange(j + 1, k)[q - j - 1]));
    } else {
        assert(s.subrange(k + 1, s.len() as int)[q - k - 1] == s[q]);
        assert(crate::text::is_digit(s.subrange(k + 1, s.len() as int)[q - k - 1]));
    }
}

/// Whether `h[lo..hi]` is a valid octet.
fn check_octet(h: &[u8], lo: usize, hi: usize) -> (r: bool)
    requires
        lo <= hi <= h@.len(),
    ensures
        r == valid_octet(h@.subrange(lo as int, hi as int)),
{
    let ghost s = h@.subrange(lo as int, hi as int);
    let n = hi - lo;
    if n < 1 || n > 3 {
        return false;
    }
    let mut t: usize = 0;
    while t < n
        invariant
            0 <= t <= n,
            n == hi - lo,
            lo <= hi <= h@.len(),
            s == h@.subrange(lo as int, hi as int),
            forall|x: int| 0 <= x < t ==> crate::text::is_digit(s[x]),
        decreases n - t,
    {
        let c = h[lo + t];
        assert(c == s[t as int]);
        if !(48 <= c && c <= 57) {
            assert(!crate::text::is_digit(s[t as int]));
            return false;
        }
        t += 1;
    }
    assert(crate::text::all_digits(s));
    if h[lo] == 48 && n > 1 {
        assert(s[0] == 48 && s.len() != 1);
        return false;
    }
    proof {
        assert(forall|x: int| 0 <= x < n ==> s[x] == h@[lo + x]);
        assert(crate::text::is_digit(s[0]));
        if n >= 2 {
            assert(crate::text::is_digit(s[1]));
        }
        if n >= 3 {
            assert(crate::text::is_digit(s[2]));
        }
    }
    let val: u32 = if n == 1 {
        (h[lo] - 48) as u32
    } else if n == 2 {
        (h[lo] - 48) as u32 * 10 + (h[lo + 1] - 48) as u32
    } else {
        (h[lo] - 48) as u32 * 100 + (h[lo + 1] - 48) as u32 * 10 + (h[lo + 2] - 48) as u32
    };
    proof {
        assert(s.drop_last() =~= h@.subrange(lo as int, hi - 1));
        assert(crate::text::digits_val(Seq::<u8>::empty()) == 0);
        if n == 1 {
            assert(s.drop_last() =~= Seq::<u8>::empty());
            assert(s.last() == s[0]);
            assert(crate::text::digits_val(s) == crate::text::digits_val(s.drop_last()) * 10 + (
            s.last() - 48));
            assert(crate::text::digits_val(s) == s[0] - 48);
        } else if n == 2 {
            let s1 = s.drop_last();
            assert(s1.drop_last() =~= Seq::<u8>::empty());
            assert(s1.last() == s[0]);
            assert(crate::text::digits_val(s1) == crate::text::digits_val(s1.drop_last()) * 10 + (
            s1.last() - 48));
            assert(crate::text::digits_val(s1) == s1[0] - 48);
            assert(crate::text::digits_val(s) == (s[0] - 48) * 10 + (s[1] - 48));
        } else {
            let s1 = s.drop_last();
            let s2 = s1.drop_last();
            assert(s2.drop_last() =~= Seq::<u8>::empty());
            assert(s2[0] == s[0] && s1[1] == s[1]);
            assert(s2.last() == s[0]);
            assert(crate::text::digits_val(s2) == crate::text::digits_val(s2.drop_last()) * 10 + (
            s2.last() - 48));
            assert(crate::text::digits_val(s2) == s2[0] - 48);
            assert(crate::text::digits_val(s1) == (s[0] - 48) * 10 + (s[1] - 48));
            assert(crate::text::digits_val(s) == ((s[0] - 48) * 10 + (s[1] - 48)) * 10 + (s[2]
                - 48));
        }
        assert(val == crate::text::digits_val(s));
    }
    val <= 255
}

/// Whether `h` is an IPv4 dotted-quad literal.
#[verifier::loop_isolation(false)]
fn is_ipv4(h: &[u8]) -> (r: bool)
    ensures
        r == valid_ipv4(h@),
{
    let mut dots: Vec<usize> = Vec::new();
    let mut p: usize = 0;
    while p < h.len()
        invariant
            0 <= p <= h@.len(),
            forall|t: int|
                0 <= t < dots@.len() ==> (#[trigger] dots@[t]) < p && h@[dots@[t] as int] == 46,
            forall|a: int, b: int| 0 <= a < b < dots@.len() ==> dots@[a] < dots@[b],
            forall|q: int| 0 <= q < p && h@[q] == 46 ==> dots@.contains(q as usize),
        decreases h@.len() - p,
    {
        if h[p] == 46 {
            let ghost old_dots = dots@;
            dots.push(p);
            proof {
                assert(dots@.last() == p);
                assert forall|q: int| 0 <= q < p + 1 && h@[q] == 46 implies dots@.contains(
                    q as usize,
                ) by {
                    if q < p {
                        assert(old_dots.contains(q as usize));
                        let t = choose|t: int| 0 <= t < old_dots.len() && old_dots[t] == (
                        q as usize);
                        assert(dots@[t] == (q as usize));
                    } else {
                        assert(dots@[dots@.len() - 1] == (q as usize));
                    }
                }
            }
        }
        p += 1;
    }
    if dots.len() != 3 {
        proof {
            if valid_ipv4(h@) {
                let (i, j, k) = choose|i: int, j: int, k: int| ipv4_dots(h@, i, j, k);
                assert(dots@.contains(i as usize));
                assert(dots@.contains(j as usize));
                assert(dots@.contains(k as usize));
                let a = choose|a: int| 0 <= a < dots@.len() && dots@[a] == (i as usize);
                let b = choose|b: int| 0 <= b < dots@.len() && dots@[b] == (j as usize);
                let c = choose|c: int| 0 <= c < dots@.len() && dots@[c] == (k as usize);
                assert(a != b && b != c && a != c);
                assert(dots@.len() >= 3);
                assert(dots@.len() >= 4);
                assert forall|t: int| 0 <= t < dots@.len() implies dots@[t] == (i as usize)
                    || dots@[t] == (j as usize) || dots@[t] == (k as usize) by {
                    let q = dots@[t] as int;
                    if q != i && q != j && q != k {
                        lemma_ipv4_positions(h@, i, j, k, q);
                    }
                }
                assert(dots@[0] < dots@[1] < dots@[2] < dots@[3]);
                assert(false);
            }
        }
        return false;
    }
    let i = dots[0];
    let j = dots[1];
    let k = dots[2];
    assert(i < j && j < k && k < h@.len());
    let ok = check_octet(h, 0, i) && check_octet(h, i + 1, j) && check_octet(h, j + 1, k)
        && check_octet(h, k + 1, h.len());
    proof {
        if ok {
            assert(ipv4_dots(h@, i as int, j as int, k as int));
        } else {
            if valid_ipv4(h@) {
                let (x, y, z) = choose|x: int, y: int, z: int| ipv4_dots(h@, x, y, z);
                assert(dots@.contains(x as usize));
                assert(dots@.contains(y as usize));
                assert(dots@.contains(z as usize));
                assert forall|t: int| 0 <= t < 3 implies dots@[t] == (x as usize) || dots@[t] == (
                y as usize) || dots@[t] == (z as usize) by {
                    let q = dots@[t] as int;
                    if q != x && q != y && q != z {
                        lemma_ipv4_positions(h@, x, y, z, q);
                    }
                }
                let a = choose|a: int| 0 <= a < dots@.len() && dots@[a] == (x as usize);
                let b = choose|b: int| 0 <= b < dots@.len() && dots@[b] == (y as usize);
                let c = choose|c: int| 0 <= c < dots@.len() && dots@[c] == (z as usize);
                assert(a != b && b != c && a != c);
                assert(x == i as int && y == j as int && z == k as int);
                assert(false);
            }
        }
    }
    ok
}

/// A hexadecimal digit, either case.
pub open spec fn is_hex_digit(b: u8) -> bool {
    (48 <= b <= 57) || (97 <= b <= 102) || (65 <= b <= 70)
}

/// One group of an IPv6 literal: one to four hex digits.
pub open spec fn valid_group(s: Seq<u8>) -> bool {
    1 <= s.len() <= 4 && forall|x: int| 0 <= x < s.len() ==> is_hex_digit(#[trigger] s[x])
}

/// All parts in `[lo, hi)` are valid groups.
pub open spec fn groups_valid(ps: Seq<Seq<u8>>, lo: int, hi: int) -> bool {
    forall|t: int| lo <= t < hi ==> valid_group(#[trigger] ps[t])
}

/// How many parts are empty.
pub open spec fn count_empty(ps: Seq<Seq<u8>>) -> int
    decreases ps.len(),
{
    if ps.len() == 0 {
        0
    } else {
        count_empty(ps.drop_last()) + if ps.last().len() == 0 {
            1int
        } else {
            0int
        }
    }
}

/// An IPv6 literal: colon-separated groups of one to four hex digits,
/// eight of them, or fewer with one `::` standing for the rest. Embedded
/// dotted-quad endings are not part of this grammar.
pub open spec fn valid_ipv6(s: Seq<u8>) -> bool {
    let ps = split_colons(s);
    let n = ps.len() as int;
    if n == 3 && ps[0].len() == 0 && ps[1].len() == 0 && ps[2].len() == 0 {
        true
    } else if ps[0].len() == 0 {
        n >= 3 && ps[1].len() == 0 && n - 2 <= 7 && groups_valid(ps, 2, n)
    } else if ps[n - 1].len() == 0 {
        n >= 3 && ps[n - 2].len() == 0 && n - 2 <= 7 && groups_valid(ps, 0, n - 2)
    } else if count_empty(ps) > 0 {
        n <= 8 && count_empty(ps) == 1 && (forall|t: int|
            0 <= t < n && (#[trigger] ps[t]).len() > 0 ==> valid_group(ps[t]))
    } else {
        n == 8 && groups_valid(ps, 0, n)
    }
}

/// Whether one part is a valid group.
fn check_group(p: &Vec<u8>) -> (r: bool)
    ensures
        r == valid_group(p@),
{
    if p.len() < 1 || p.len() > 4 {
        return false;
    }
    let mut x: usize = 0;
    while x < p.len()
        invariant
            0 <= x <= p@.len(),
            forall|y: int| 0 <= y < x ==> is_hex_digit(#[trigger] p@[y]),
        decreases p@.len() - x,
    {
        let c = p[x];
        if !((48 <= c && c <= 57) || (97 <= c && c <= 102) || (65 <= c && c <= 70)) {
            assert(!is_hex_digit(p@[x as int]));
            return false;
        }
        x += 1;
    }
    true
}

/// Whether all parts in `[lo, hi)` are valid groups.
fn check_groups(parts: &Vec<Vec<u8>>, lo: usize, hi: usize) -> (r: bool)
    requires
        lo <= hi <= parts@.len(),
    ensures
        r == groups_valid(parts.deep_view(), lo as int, hi as int),
{
    let mut t = lo;
    while t < hi
        invariant
            lo <= t <= hi <= parts@.len(),
            forall|u: int| lo <= u < t ==> valid_group(#[trigger] parts.deep_view()[u]),
        decreases hi - t,
    {
        assert(parts.deep_view()[t as int] == parts@[t as int]@);
        if !check_group(&parts[t]) {
            return false;
        }
        t += 1;
    }
    true
}

/// Counts the empty parts.
#[verifier::loop_isolation(false)]
fn count_empty_parts(parts: &Vec<Vec<u8>>) -> (r: usize)
    ensures
        r == count_empty(parts.deep_view()),
{
    let ghost ps = parts.deep_view();
    let mut cnt: usize = 0;
    let mut t: usize = 0;
    assert(ps.take(0) =~= Seq::<Seq<u8>>::empty());
    while t < parts.len()
        invariant
            0 <= t <= parts@.len(),
            cnt <= t,
            cnt == count_empty(ps.take(t as int)),
        decreases parts@.len() - t,
    {
        proof {
            assert(ps.take(t + 1).drop_last() =~= ps.take(t as int));
            assert(ps.take(t + 1).last() == ps[t as int]);
            assert(ps[t as int] == parts@[t as int]@);
        }
        if parts[t].len() == 0 {
            cnt += 1;
        }
        t += 1;
    }
    assert(ps.take(t as int) =~= ps);
    cnt
}

/// Whether every non-empty part is a valid group.
fn check_nonempty_groups(parts: &Vec<Vec<u8>>) -> (r: bool)
    ensures
        r == (forall|t: int|
            0 <= t < parts.deep_view().len() && (#[trigger] parts.deep_view()[t]).len() > 0
                ==> valid_group(parts.deep_view()[t])),
{
    let mut t: usize = 0;
    while t < parts.len()
        invariant
            0 <= t <= parts@.len(),
            forall|u: int|
                0 <= u < t && (#[trigger] parts.deep_view()[u]).len() > 0 ==> valid_group(
                    parts.deep_view()[u],
                ),
        decreases parts@.len() - t,
    {
        assert(parts.deep_view()[t as int] == parts@[t as int]@);
        if parts[t].len() > 0 {
            if !check_group(&parts[t]) {
                return false;
            }
        }
        t += 1;
    }
    true
}

/// Whether `h` is an IPv6 literal of the grammar `valid_ipv6` describes.
fn is_ipv6(h: &[u8]) -> (r: bool)
    ensures
        r == valid_ipv6(h@),
{
    let parts = split_on_colons(h);
    let ghost ps = parts.deep_view();
    assert(ps.len() == parts@.len()) by {
        assert(ps.len() == parts@.len());
    }
    let n = parts.len();
    assert(n >= 1) by {
        assert(split_colons(h@).len() >= 1);
    }
    proof {
        assert(forall|t: int| 0 <= t < n ==> ps[t] == (#[trigger] parts@[t])@);
    }
    if n == 3 && parts[0].len() == 0 && parts[1].len() == 0 && parts[2].len() == 0 {
        return true;
    }
    if parts[0].len() == 0 {
        return n >= 3 && parts[1].len() == 0 && n - 2 <= 7 && check_groups(&parts, 2, n);
    }
    if parts[n - 1].len() == 0 {
        return n >= 3 && parts[n - 2].len() == 0 && n - 2 <= 7 && check_groups(&parts, 0, n - 2);
    }
    let empties = count_empty_parts(&parts);
    if empties > 0 {
        return n <= 8 && empties == 1 && check_nonempty_groups(&parts);
    }
    n == 8 && check_groups(&parts, 0, n)
}

/// Why a primary address specification is rejected.
#[derive(Debug, PartialEq, Eq, Structural, Clone, Copy)]
pub enum HostSpecError {
    InvalidShape,
    InvalidPort,
    PortOutOfRange,
    InvalidHost,
}

impl HostSpecError {
    /// The message a user sees for this rejection.
    pub fn message(&self) -> (r: &'static str)
    {
        match self {
            HostSpecError::InvalidShape => "Invalid Master Host and Port specification.",
            HostSpecError::InvalidPort => "Invalid Port",
            HostSpecError::PortOutOfRange => "Port must be between 1024 and 65535",
            HostSpecError::InvalidHost => "Invalid host",
        }
    }
}

/// The primary's address: a host that is an IP literal (or was the token
/// `localhost`, kept as the IPv4 loopback) and a port in [1024, 65535].
#[derive(Debug)]
pub struct HostSpec {
    host: Vec<u8>,
    port: u16,
}

/// The mathematical shape of a primary address.
#[verifier::ext_equal]
pub struct HostSpecV {
    pub host: Seq<u8>,
    pub port: u16,
}

impl View for HostSpec {
    type V = HostSpecV;

    closed spec fn view(&self) -> HostSpecV {
        HostSpecV { host: self.host@, port: self.port }
    }
}

/// Parsing a `<host> <port>` specification: exactly two
/// whitespace-separated tokens; the port a decimal in [1024, 65535]; the
/// host an IPv4 or IPv6 literal, or the token `localhost`, which resolves
/// to the IPv4 loopback.
pub open spec fn spec_host_spec(s: Seq<u8>) -> Result<HostSpecV, HostSpecError> {
    let toks = spec_tokens(s);
    if toks.len() != 2 {
        Err(HostSpecError::InvalidShape)
    } else {
        match crate::text::spec_parse_u64(toks[1]) {
            None => Err(HostSpecError::InvalidPort),
            Some(v) => if v > 65535 {
                Err(HostSpecError::InvalidPort)
            } else if v < 1024 {
                Err(HostSpecError::PortOutOfRange)
            } else if toks[0] == "localhost".spec_bytes() {
                Ok(HostSpecV { host: "127.0.0.1".spec_bytes(), port: v as u16 })
            } else if valid_ipv4(toks[0]) || valid_ipv6(toks[0]) {
                Ok(HostSpecV { host: toks[0], port: v as u16 })
            } else {
                Err(HostSpecError::InvalidHost)
            },
        }
    }
}

impl HostSpec {
    /// Parses a `<host> <port>` specification, exactly as `spec_host_spec`
    /// describes.
    pub fn from_str(s: &str) -> (r: Result<HostSpec, HostSpecError>)
        ensures
            match (r, spec_host_spec(s.spec_bytes())) {
                (Ok(h), Ok(hv)) => h@ == hv,
                (Err(e), Err(k)) => e == k,
                _ => false,
            },
    {
        let b = s.as_bytes();
        let toks = tokenize(b);
        if toks.len() != 2 {
            return Err(HostSpecError::InvalidShape);
        }
        assert(toks.deep_view()[0] == toks@[0]@ && toks.deep_view()[1] == toks@[1]@);
        let v = match crate::text::parse_u64_bytes(toks[1].as_slice()) {
            None => {
                return Err(HostSpecError::InvalidPort);
            },
            Some(v) => v,
        };
        if v > 65535 {
            return Err(HostSpecError::InvalidPort);
        }
        if v < 1024 {
            return Err(HostSpecError::PortOutOfRange);
        }
        let port = v as u16;
        if crate::text::bytes_eq(toks[0].as_slice(), "localhost".as_bytes()) {
            return Ok(
                HostSpec { host: vstd::slice::slice_to_vec("127.0.0.1".as_bytes()), port },
            );
        }
        if is_ipv4(toks[0].as_slice()) || is_ipv6(toks[0].as_slice()) {
            return Ok(HostSpec { host: vstd::slice::slice_to_vec(toks[0].as_slice()), port });
        }
        Err(HostSpecError::InvalidHost)
    }

    /// The `host:port` form used to open the connection.
    pub fn address(&self) -> (r: Vec<u8>)
        ensures
            r@ == self@.host + ":".spec_bytes() + dec_nat(self@.port as int),
    {
        let mut r = vstd::slice::slice_to_vec(self.host.as_slice());
        let mut sep = vstd::slice::slice_to_vec(":".as_bytes());
        r.append(&mut sep);
        let mut digits = crate::text::u64_to_dec(self.port as u64);
        r.append(&mut digits);
        r
    }
}

} // verus!