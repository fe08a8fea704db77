//! Requests and how they are written on the wire.
use crate::bytes::{
    be16, be64, from_be16, from_be64, lemma_be16, lemma_be64, push_u16, push_u64, read_u16, read_u64,
};
use crate::fields::{
    blob_field, blob_fits, lemma_blob_unique, lemma_stands_concat, lemma_stands_whole,
    lemma_text_unique, push_blob, push_text, stands_at, take_blob, take_text, text_field, text_fits,
};
use crate::sort::key_views;
use vstd::prelude::*;

verus! {

/// The first byte of a SET request.
pub const OP_SET: u8 = 0;

/// The first byte of a GET request.
pub const OP_GET: u8 = 1;

/// The first byte of a DEL request.
pub const OP_DEL: u8 = 2;

/// The first byte of a PING request.
pub const OP_PING: u8 = 3;

/// The first byte of an EXISTS request.
pub const OP_EXISTS: u8 = 4;

/// The first byte of a SETX request.
pub const OP_SETX: u8 = 5;

/// The first byte of a SCAN request.
pub const OP_SCAN: u8 = 6;

/// The first byte of an MGET request.
pub const OP_MGET: u8 = 7;

/// The first byte of a SAVE request.
pub const OP_SAVE: u8 = 8;

/// The first byte of a TTL request.
pub const OP_TTL: u8 = 9;

/// The largest number of keys in one MGET request.
pub const MGET_LIMIT_CAP: usize = 256;

/// A request of a client.
#[derive(Debug)]
pub enum Request {
    /// Set a key to a value that does not expire.
    Put { key: String, value: Vec<u8> },
    /// Read the value of a key.
    Get { key: String },
    /// Remove a key.
    Del { key: String },
    /// Ask whether the server answers.
    Ping,
    /// Ask whether a key has a value.
    Exists { key: String },
    /// Set a key to a value that expires after some milliseconds.
    PutTtl { key: String, value: Vec<u8>, ttl_ms: u64 },
    /// List keys with a prefix, after a cursor.
    Scan { prefix: String, limit: u16, cursor: String },
    /// Read the values of several keys.
    Mget { keys: Vec<String> },
    /// Save a snapshot.
    Save,
    /// Ask when a key expires.
    Ttl { key: String },
}

/// What a [`Request`] means.
pub enum RequestView {
    Put { key: Seq<char>, value: Seq<u8> },
    Get { key: Seq<char> },
    Del { key: Seq<char> },
    Ping,
    Exists { key: Seq<char> },
    PutTtl { key: Seq<char>, value: Seq<u8>, ttl_ms: u64 },
    Scan { prefix: Seq<char>, limit: u16, cursor: Seq<char> },
    Mget { keys: Seq<Seq<char>> },
    Save,
    Ttl { key: Seq<char> },
}

impl View for Request {
    type V = RequestView;

    open spec fn view(&self) -> RequestView {
        match *self {
            Request::Put { key, value } => RequestView::Put { key: key@, value: value@ },
            Request::Get { key } => RequestView::Get { key: key@ },
            Request::Del { key } => RequestView::Del { key: key@ },
            Request::Ping => RequestView::Ping,
            Request::Exists { key } => RequestView::Exists { key: key@ },
            Request::PutTtl { key, value, ttl_ms } => RequestView::PutTtl {
                key: key@,
                value: value@,
                ttl_ms,
            },
            Request::Scan { prefix, limit, cursor } => RequestView::Scan {
                prefix: prefix@,
                limit,
                cursor: cursor@,
            },
            Request::Mget { keys } => RequestView::Mget { keys: key_views(keys@) },
            Request::Save => RequestView::Save,
            Request::Ttl { key } => RequestView::Ttl { key: key@ },
        }
    }
}

/// Text fields one after the other.
pub open spec fn text_fields(texts: Seq<Seq<char>>) -> Seq<u8>
    decreases texts.len(),
{
    if texts.len() == 0 {
        seq![]
    } else {
        text_fields(texts.drop_last()) + text_field(texts.last())
    }
}

/// Whether each of some texts is short enough for a text field.
pub open spec fn texts_fit(texts: Seq<Seq<char>>) -> bool {
    forall|i: int| 0 <= i < texts.len() ==> text_fits(#[trigger] texts[i])
}

impl RequestView {
    /// The byte that says which request it is.
    pub open spec fn opcode(self) -> u8 {
        match self {
            RequestView::Put { .. } => OP_SET,
            RequestView::Get { .. } => OP_GET,
            RequestView::Del { .. } => OP_DEL,
            RequestView::Ping => OP_PING,
            RequestView::Exists { .. } => OP_EXISTS,
            RequestView::PutTtl { .. } => OP_SETX,
            RequestView::Scan { .. } => OP_SCAN,
            RequestView::Mget { .. } => OP_MGET,
            RequestView::Save => OP_SAVE,
            RequestView::Ttl { .. } => OP_TTL,
        }
    }

    /// What follows the opcode.
    pub open spec fn body(self) -> Seq<u8> {
        match self {
            RequestView::Put { key, value } => text_field(key) + blob_field(value),
            RequestView::Get { key } => text_field(key),
            RequestView::Del { key } => text_field(key),
            RequestView::Ping => seq![],
            RequestView::Exists { key } => text_field(key),
            RequestView::PutTtl { key, value, ttl_ms } => text_field(key) + blob_field(value) + be64(
                ttl_ms as nat,
            ),
            RequestView::Scan { prefix, limit, cursor } => text_field(prefix) + be16(limit as nat)
                + text_field(cursor),
            RequestView::Mget { keys } => be16(keys.len()) + text_fields(keys),
            RequestView::Save => seq![],
            RequestView::Ttl { key } => text_field(key),
        }
    }

    /// The bytes of the request on the wire.
    pub open spec fn encoding(self) -> Seq<u8> {
        seq![self.opcode()] + self.body()
    }

    /// Whether the request can be made: its texts and values fit their fields, a TTL is not 0,
    /// and no more keys are asked for at once than are allowed.
    pub open spec fn valid(self) -> bool {
        match self {
            RequestView::Put { key, value } => text_fits(key) && blob_fits(value),
            RequestView::Get { key } => text_fits(key),
            RequestView::Del { key } => text_fits(key),
            RequestView::Ping => true,
            RequestView::Exists { key } => text_fits(key),
            RequestView::PutTtl { key, value, ttl_ms } => text_fits(key) && blob_fits(value) && ttl_ms
                > 0,
            RequestView::Scan { prefix, limit, cursor } => text_fits(prefix) && text_fits(cursor),
            RequestView::Mget { keys } => keys.len() <= MGET_LIMIT_CAP && texts_fit(keys),
            RequestView::Save => true,
            RequestView::Ttl { key } => text_fits(key),
        }
    }

    /// Whether a frame is the encoding of this request, and the request a valid one.
    pub open spec fn encodes(self, frame: Seq<u8>) -> bool {
        self.valid() && self.encoding() == frame
    }
}

/// Whether a frame is no valid request.
pub open spec fn malformed(frame: Seq<u8>) -> bool {
    forall|q: RequestView| !(#[trigger] q.encodes(frame))
}

/// Whether a frame holds a body after its first byte, and nothing else.
spec fn holds(frame: Seq<u8>, body: Seq<u8>) -> bool {
    stands_at(frame, 1, body) && body.len() + 1 == frame.len()
}

/// The first byte of an encoding is the opcode, and the rest is the body.
proof fn lemma_encodes(q: RequestView, frame: Seq<u8>)
    ensures
        q.encoding() == frame <==> frame.len() > 0 && q.opcode() == frame[0] && holds(
            frame,
            q.body(),
        ),
{
    let op = seq![q.opcode()];
    lemma_stands_whole(frame, q.encoding());
    lemma_stands_concat(frame, 0, op, q.body());
    if frame.len() > 0 {
        assert(frame.subrange(0, 1) =~= seq![frame[0]]);
        assert(op[0] == q.opcode());
        assert(seq![frame[0]][0] == frame[0]);
    }
}

/// The body of a SET request says which key and value it has.
proof fn lemma_put_unique(
    frame: Seq<u8>,
    key: Seq<char>,
    value: Seq<u8>,
    k: Seq<char>,
    v: Seq<u8>,
)
    requires
        text_fits(key) && blob_fits(value) && text_fits(k) && blob_fits(v),
        stands_at(frame, 1, text_field(key) + blob_field(value)),
        stands_at(frame, 1, text_field(k) + blob_field(v)),
    ensures
        key == k && value == v,
{
    lemma_stands_concat(frame, 1, text_field(key), blob_field(value));
    lemma_stands_concat(frame, 1, text_field(k), blob_field(v));
    lemma_text_unique(frame, 1, key, k);
    lemma_blob_unique(frame, 1int + text_field(key).len(), value, v);
}

/// The body of a SETX request says which key, value and TTL it has.
proof fn lemma_put_ttl_unique(
    frame: Seq<u8>,
    a: (Seq<char>, Seq<u8>, u64),
    b: (Seq<char>, Seq<u8>, u64),
)
    requires
        text_fits(a.0) && blob_fits(a.1) && text_fits(b.0) && blob_fits(b.1),
        stands_at(frame, 1, text_field(a.0) + blob_field(a.1) + be64(a.2 as nat)),
        stands_at(frame, 1, text_field(b.0) + blob_field(b.1) + be64(b.2 as nat)),
    ensures
        a == b,
{
    lemma_stands_concat(frame, 1, text_field(a.0) + blob_field(a.1), be64(a.2 as nat));
    lemma_stands_concat(frame, 1, text_field(b.0) + blob_field(b.1), be64(b.2 as nat));
    lemma_put_unique(frame, a.0, a.1, b.0, b.1);
    lemma_be64(a.2 as nat, be64(a.2 as nat));
    lemma_be64(b.2 as nat, be64(b.2 as nat));
}

/// The body of a SCAN request says which prefix, limit and cursor it has.
proof fn lemma_scan_unique(
    frame: Seq<u8>,
    a: (Seq<char>, u16, Seq<char>),
    b: (Seq<char>, u16, Seq<char>),
)
    requires
        text_fits(a.0) && text_fits(a.2) && text_fits(b.0) && text_fits(b.2),
        stands_at(frame, 1, text_field(a.0) + be16(a.1 as nat) + text_field(a.2)),
        stands_at(frame, 1, text_field(b.0) + be16(b.1 as nat) + text_field(b.2)),
    ensures
        a == b,
{
    lemma_stands_concat(frame, 1, text_field(a.0) + be16(a.1 as nat), text_field(a.2));
    lemma_stands_concat(frame, 1, text_field(a.0), be16(a.1 as nat));
    lemma_stands_concat(frame, 1, text_field(b.0) + be16(b.1 as nat), text_field(b.2));
    lemma_stands_concat(frame, 1, text_field(b.0), be16(b.1 as nat));
    lemma_text_unique(frame, 1, a.0, b.0);
    lemma_be16(a.1 as nat, be16(a.1 as nat));
    lemma_be16(b.1 as nat, be16(b.1 as nat));
    lemma_text_unique(frame, 1int + text_field(a.0).len() + 2, a.2, b.2);
}

/// Two bodies that stand at the same place with the same opcode, of valid requests, are bodies of
/// the same request.
proof fn lemma_body_unique(a: RequestView, b: RequestView, frame: Seq<u8>)
    requires
        a.valid(),
        b.valid(),
        a.opcode() == b.opcode(),
        stands_at(frame, 1, a.body()),
        stands_at(frame, 1, b.body()),
    ensures
        a == b,
{
    match a {
        RequestView::Put { key, value } => {
            lemma_put_unique(frame, key, value, b->Put_key, b->Put_value);
        },
        RequestView::Get { key } => {
            lemma_text_unique(frame, 1, key, b->Get_key);
        },
        RequestView::Del { key } => {
            lemma_text_unique(frame, 1, key, b->Del_key);
        },
        RequestView::Ping => {},
        RequestView::Exists { key } => {
            lemma_text_unique(frame, 1, key, b->Exists_key);
        },
        RequestView::PutTtl { key, value, ttl_ms } => {
            lemma_put_ttl_unique(
                frame,
                (key, value, ttl_ms),
                (b->PutTtl_key, b->PutTtl_value, b->ttl_ms),
            );
        },
        RequestView::Scan { prefix, limit, cursor } => {
            lemma_scan_unique(frame, (prefix, limit, cursor), (b->prefix, b->limit, b->cursor));
        },
        RequestView::Mget { keys } => {
            let ks = b->keys;
            lemma_stands_concat(frame, 1, be16(keys.len()), text_fields(keys));
            lemma_stands_concat(frame, 1, be16(ks.len()), text_fields(ks));
            lemma_be16(keys.len(), be16(keys.len()));
            lemma_be16(ks.len(), be16(ks.len()));
            lemma_texts_unique(frame, 3, keys, ks);
        },
        RequestView::Save => {},
        RequestView::Ttl { key } => {
            lemma_text_unique(frame, 1, key, b->Ttl_key);
        },
    }
}

/// A place in a byte string holds no two sequences of equally many text fields.
pub proof fn lemma_texts_unique(data: Seq<u8>, pos: int, a: Seq<Seq<char>>, b: Seq<Seq<char>>)
    requires
        a.len() == b.len(),
        texts_fit(a),
        texts_fit(b),
        stands_at(data, pos, text_fields(a)),
        stands_at(data, pos, text_fields(b)),
    ensures
        a == b,
    decreases a.len(),
{
    if a.len() > 0 {
        let x = a.drop_last();
        let y = b.drop_last();
        lemma_stands_concat(data, pos, text_fields(x), text_field(a.last()));
        lemma_stands_concat(data, pos, text_fields(y), text_field(b.last()));
        assert(texts_fit(x));
        assert(texts_fit(y));
        lemma_texts_unique(data, pos, x, y);
        lemma_text_unique(data, pos + text_fields(x).len(), a.last(), b.last());
        assert(a =~= x.push(a.last()));
        assert(b =~= y.push(b.last()));
    } else {
        assert(a =~= b);
    }
}

/// No two requests have the same encoding: a frame says which request it is.
pub proof fn law_encoding_unambiguous(a: RequestView, b: RequestView)
    requires
        a.valid(),
        b.valid(),
        a.encoding() == b.encoding(),
    ensures
        a == b,
{
    let frame = a.encoding();
    lemma_encodes(a, frame);
    lemma_encodes(b, frame);
    lemma_body_unique(a, b, frame);
}

/// The first fields of a sequence of text fields stand where the sequence stands.
proof fn lemma_fields_prefix(data: Seq<u8>, pos: int, texts: Seq<Seq<char>>, n: int)
    requires
        0 <= n <= texts.len(),
        stands_at(data, pos, text_fields(texts)),
    ensures
        stands_at(data, pos, text_fields(texts.take(n))),
    decreases texts.len(),
{
    if n == texts.len() {
        assert(texts.take(n) =~= texts);
    } else {
        lemma_stands_concat(data, pos, text_fields(texts.drop_last()), text_field(texts.last()));
        lemma_fields_prefix(data, pos, texts.drop_last(), n);
        assert(texts.drop_last().take(n) =~= texts.take(n));
    }
}

/// Reads a body that is one key.
fn parse_key(frame: &[u8]) -> (key: Option<String>)
    requires
        frame@.len() > 0,
    ensures
        match key {
            Some(key) => text_fits(key@) && holds(frame@, text_field(key@)),
            None => forall|key: Seq<char>|
                text_fits(key) ==> !holds(frame@, #[trigger] text_field(key)),
        },
{
    match take_text(frame, 1) {
        Some((key, end)) => {
            if end != frame.len() {
                proof {
                    assert forall|k: Seq<char>| text_fits(k) implies !holds(
                        frame@,
                        #[trigger] text_field(k),
                    ) by {
                        if holds(frame@, text_field(k)) {
                            lemma_text_unique(frame@, 1, key@, k);
                        }
                    }
                }
                return None;
            }
            Some(key)
        },
        None => None,
    }
}

/// Reads a key and a value. Returns them and the position after them.
fn take_key_value(frame: &[u8]) -> (taken: Option<(String, Vec<u8>, usize)>)
    requires
        frame@.len() > 0,
    ensures
        match taken {
            Some((key, value, next)) => text_fits(key@) && blob_fits(value@) && stands_at(
                frame@,
                1,
                text_field(key@) + blob_field(value@),
            ) && next == 1 + (text_field(key@) + blob_field(value@)).len(),
            None => forall|key: Seq<char>, value: Seq<u8>|
                text_fits(key) && blob_fits(value) ==> !stands_at(
                    frame@,
                    1,
                    #[trigger] text_field(key) + #[trigger] blob_field(value),
                ),
        },
{
    match take_text(frame, 1) {
        Some((key, middle)) => match take_blob(frame, middle) {
            Some((value, end)) => {
                proof {
                    lemma_stands_concat(frame@, 1, text_field(key@), blob_field(value@));
                }
                Some((key, value, end))
            },
            None => {
                proof {
                    assert forall|k: Seq<char>, v: Seq<u8>|
                        text_fits(k) && blob_fits(v) implies !stands_at(
                        frame@,
                        1,
                        #[trigger] text_field(k) + #[trigger] blob_field(v),
                    ) by {
                        lemma_stands_concat(frame@, 1, text_field(k), blob_field(v));
                        if stands_at(frame@, 1, text_field(k)) {
                            lemma_text_unique(frame@, 1, key@, k);
                        }
                    }
                }
                None
            },
        },
        None => {
            proof {
                assert forall|k: Seq<char>, v: Seq<u8>|
                    text_fits(k) && blob_fits(v) implies !stands_at(
                    frame@,
                    1,
                    #[trigger] text_field(k) + #[trigger] blob_field(v),
                ) by {
                    lemma_stands_concat(frame@, 1, text_field(k), blob_field(v));
                }
            }
            None
        },
    }
}

/// Reads the rest of a SET request.
fn parse_put(frame: &[u8]) -> (request: Option<Request>)
    requires
        frame@.len() > 0,
        frame@[0] == OP_SET,
    ensures
        match request {
            Some(request) => request@.encodes(frame@),
            None => malformed(frame@),
        },
{
    let taken = take_key_value(frame);
    proof {
        assert forall|q: RequestView| #[trigger] q.encodes(frame@) implies match taken {
            Some((key, value, end)) => q == (RequestView::Put { key: key@, value: value@ }) && end
                == frame@.len(),
            None => false,
        } by {
            lemma_encodes(q, frame@);
            assert(text_field(q->Put_key) + blob_field(q->Put_value) == q.body());
            if let Some((key, value, end)) = taken {
                lemma_body_unique(q, RequestView::Put { key: key@, value: value@ }, frame@);
            }
        }
    }
    match taken {
        Some((key, value, end)) => {
            if end != frame.len() {
                return None;
            }
            let request = Request::Put { key, value };
            proof {
                lemma_encodes(request@, frame@);
            }
            Some(request)
        },
        None => None,
    }
}

/// Reads the rest of a SETX request.
fn parse_put_ttl(frame: &[u8]) -> (request: Option<Request>)
    requires
        frame@.len() > 0,
        frame@[0] == OP_SETX,
    ensures
        match request {
            Some(request) => request@.encodes(frame@),
            None => malformed(frame@),
        },
{
    let taken = take_key_value(frame);
    proof {
        assert forall|q: RequestView| #[trigger] q.encodes(frame@) implies match taken {
            Some((key, value, end)) => end + 8 == frame@.len() && q == (RequestView::PutTtl {
                key: key@,
                value: value@,
                ttl_ms: from_be64(frame@.subrange(end as int, end + 8)) as u64,
            }) && q->ttl_ms > 0,
            None => false,
        } by {
            lemma_encodes(q, frame@);
            let (k, v, t) = (q->PutTtl_key, q->PutTtl_value, q->ttl_ms);
            lemma_stands_concat(frame@, 1, text_field(k) + blob_field(v), be64(t as nat));
            lemma_be64(t as nat, be64(t as nat));
            if let Some((key, value, end)) = taken {
                lemma_stands_concat(frame@, 1, text_field(k), blob_field(v));
                lemma_stands_concat(frame@, 1, text_field(key@), blob_field(value@));
                lemma_text_unique(frame@, 1, k, key@);
                lemma_blob_unique(frame@, 1int + text_field(k).len(), v, value@);
            }
        }
    }
    match taken {
        Some((key, value, end)) => {
            if frame.len() - end != 8 {
                return None;
            }
            let ttl_ms: u64 = read_u64(frame, end);
            if ttl_ms == 0 {
                return None;
            }
            let request = Request::PutTtl { key, value, ttl_ms };
            proof {
                let tail = frame@.subrange(end as int, end + 8);
                lemma_be64(ttl_ms as nat, tail);
                lemma_stands_concat(
                    frame@,
                    1,
                    text_field(key@) + blob_field(value@),
                    be64(ttl_ms as nat),
                );
                lemma_encodes(request@, frame@);
            }
            Some(request)
        },
        None => None,
    }
}

/// Reads the rest of a SCAN request.
fn parse_scan(frame: &[u8]) -> (request: Option<Request>)
    requires
        frame@.len() > 0,
        frame@[0] == OP_SCAN,
    ensures
        match request {
            Some(request) => request@.encodes(frame@),
            None => malformed(frame@),
        },
{
    proof {
        assert forall|q: RequestView| #[trigger] q.encodes(frame@) implies q is Scan && text_fits(
            q->prefix,
        ) && text_fits(q->cursor) && stands_at(frame@, 1, text_field(q->prefix)) && stands_at(
            frame@,
            1int + text_field(q->prefix).len(),
            be16(q->limit as nat),
        ) && stands_at(frame@, 3int + text_field(q->prefix).len(), text_field(q->cursor)) && 3
            + text_field(q->prefix).len() + text_field(q->cursor).len() == frame@.len() by {
            lemma_encodes(q, frame@);
            let (p, l, c) = (q->prefix, q->limit, q->cursor);
            lemma_stands_concat(frame@, 1, text_field(p) + be16(l as nat), text_field(c));
            lemma_stands_concat(frame@, 1, text_field(p), be16(l as nat));
            lemma_be16(l as nat, be16(l as nat));
        }
    }
    match take_text(frame, 1) {
        Some((prefix, middle)) => {
            proof {
                assert forall|q: RequestView| #[trigger] q.encodes(frame@) implies q->prefix
                    == prefix@ by {
                    lemma_text_unique(frame@, 1, q->prefix, prefix@);
                }
            }
            if frame.len() - middle < 2 {
                proof {
                    assert forall|q: RequestView| !(#[trigger] q.encodes(frame@)) by {
                        lemma_be16(q->limit as nat, be16(0));
                    }
                }
                return None;
            }
            let limit: u16 = read_u16(frame, middle);
            match take_text(frame, middle + 2) {
                Some((cursor, end)) => {
                    proof {
                        assert forall|q: RequestView| #[trigger] q.encodes(frame@) implies end
                            == frame@.len() by {
                            lemma_text_unique(frame@, middle + 2, q->cursor, cursor@);
                        }
                    }
                    if end != frame.len() {
                        return None;
                    }
                    let request = Request::Scan { prefix, limit, cursor };
                    proof {
                        let tail = frame@.subrange(middle as int, middle + 2);
                        lemma_be16(limit as nat, tail);
                        let head = text_field(prefix@) + be16(limit as nat);
                        lemma_stands_concat(frame@, 1, text_field(prefix@), be16(limit as nat));
                        lemma_stands_concat(frame@, 1, head, text_field(cursor@));
                        lemma_encodes(request@, frame@);
                    }
                    Some(request)
                },
                None => None,
            }
        },
        None => None,
    }
}

/// Reads the rest of an MGET request.
fn parse_mget(frame: &[u8]) -> (request: Option<Request>)
    requires
        frame@.len() > 0,
        frame@[0] == OP_MGET,
    ensures
        match request {
            Some(request) => request@.encodes(frame@),
            None => malformed(frame@),
        },
{
    proof {
        assert forall|q: RequestView| #[trigger] q.encodes(frame@) implies q is Mget && 3
            <= frame@.len() && q->keys.len() == from_be16(frame@.subrange(1, 3))
            && texts_fit(q->keys) && q->keys.len() <= MGET_LIMIT_CAP && stands_at(
            frame@,
            3,
            text_fields(q->keys),
        ) && 3 + text_fields(q->keys).len() == frame@.len() by {
            lemma_encodes(q, frame@);
            let n = q->keys.len();
            lemma_be16(n, be16(n));
            lemma_stands_concat(frame@, 1, be16(n), text_fields(q->keys));
        }
    }
    if frame.len() < 3 {
        return None;
    }
    let count: usize = read_u16(frame, 1) as usize;
    if count > MGET_LIMIT_CAP {
        return None;
    }
    let mut keys: Vec<String> = Vec::with_capacity(count);
    let mut pos: usize = 3;
    let mut i: usize = 0;
    proof {
        assert(key_views(keys@) =~= Seq::<Seq<char>>::empty());
        assert(frame@.subrange(3, 3) =~= Seq::<u8>::empty());
        assert forall|q: RequestView| #[trigger] q.encodes(frame@) implies q->keys.take(0)
            == key_views(keys@) by {
            assert(q->keys.take(0) =~= key_views(keys@));
        }
    }
    while i < count
        invariant
            3 <= frame@.len(),
            count <= MGET_LIMIT_CAP,
            i <= count,
            keys@.len() == i,
            texts_fit(key_views(keys@)),
            stands_at(frame@, 3, text_fields(key_views(keys@))),
            pos == 3 + text_fields(key_views(keys@)).len(),
            forall|q: RequestView| #[trigger]
                q.encodes(frame@) ==> q is Mget && q->keys.len() == count && texts_fit(q->keys)
                    && stands_at(frame@, 3, text_fields(q->keys)) && 3 + text_fields(q->keys).len()
                    == frame@.len(),
            forall|q: RequestView| #[trigger]
                q.encodes(frame@) ==> q->keys.take(i as int) == key_views(keys@),
        decreases count - i,
    {
        let ghost before = key_views(keys@);
        proof {
            assert forall|q: RequestView| #[trigger] q.encodes(frame@) implies stands_at(
                frame@,
                pos as int,
                text_field(q->keys[i as int]),
            ) by {
                let next = q->keys.take(i + 1);
                lemma_fields_prefix(frame@, 3, q->keys, i + 1);
                assert(next.drop_last() =~= before);
                lemma_stands_concat(frame@, 3, text_fields(before), text_field(next.last()));
            }
        }
        match take_text(frame, pos) {
            Some((key, next)) => {
                proof {
                    assert forall|q: RequestView| #[trigger] q.encodes(
                        frame@,
                    ) implies q->keys.take(i + 1) == before.push(key@) by {
                        lemma_text_unique(frame@, pos as int, q->keys[i as int], key@);
                        assert(q->keys.take(i + 1) =~= before.push(key@));
                    }
                    assert(before.push(key@).drop_last() =~= before);
                    lemma_stands_concat(frame@, 3, text_fields(before), text_field(key@));
                }
                keys.push(key);
                assert(key_views(keys@) =~= before.push(key@));
                pos = next;
            },
            None => {
                return None;
            },
        }
        i += 1;
    }
    proof {
        assert forall|q: RequestView| #[trigger] q.encodes(frame@) implies pos == frame@.len() by {
            assert(q->keys.take(count as int) =~= q->keys);
        }
    }
    if pos != frame.len() {
        return None;
    }
    let request = Request::Mget { keys };
    proof {
        let n = frame@.subrange(1, 3);
        lemma_be16(count as nat, n);
        lemma_stands_concat(frame@, 1, be16(count as nat), text_fields(key_views(keys@)));
        lemma_encodes(request@, frame@);
    }
    Some(request)
}

/// Reads a request from a frame, or `None` where the frame is no valid request: it is empty, its
/// opcode is unknown, it ends too early or holds more than the request, a text is not UTF-8, a
/// TTL is 0, or more keys are asked for at once than are allowed.
pub fn parse_request(frame: &[u8]) -> (request: Option<Request>)
    ensures
        match request {
            Some(request) => request@.encodes(frame@),
            None => malformed(frame@),
        },
{
    proof {
        assert forall|q: RequestView| #[trigger] q.encodes(frame@) implies frame@.len() > 0
            && frame@[0] == q.opcode() && holds(frame@, q.body()) by {
            lemma_encodes(q, frame@);
        }
    }
    if frame.len() == 0 {
        return None;
    }
    let request = match frame[0] {
        OP_SET => return parse_put(frame),
        OP_SETX => return parse_put_ttl(frame),
        OP_SCAN => return parse_scan(frame),
        OP_MGET => return parse_mget(frame),
        OP_GET => match parse_key(frame) {
            Some(key) => Request::Get { key },
            None => return None,
        },
        OP_DEL => match parse_key(frame) {
            Some(key) => Request::Del { key },
            None => return None,
        },
        OP_EXISTS => match parse_key(frame) {
            Some(key) => Request::Exists { key },
            None => return None,
        },
        OP_TTL => match parse_key(frame) {
            Some(key) => Request::Ttl { key },
            None => return None,
        },
        OP_PING => {
            if frame.len() != 1 {
                return None;
            }
            Request::Ping
        },
        OP_SAVE => {
            if frame.len() != 1 {
                return None;
            }
            Request::Save
        },
        _ => return None,
    };
    proof {
        assert(frame@.len() == 1 ==> frame@.subrange(1, 1) =~= Seq::<u8>::empty());
        lemma_encodes(request@, frame@);
    }
    Some(request)
}

/// Writes a request.
pub fn encode_request(request: &Request) -> (frame: Vec<u8>)
    requires
        request@.valid(),
    ensures
        frame@ == request@.encoding(),
{
    let mut out: Vec<u8> = Vec::new();
    match request {
        Request::Put { key, value } => {
            out.push(OP_SET);
            push_text(&mut out, key.as_str());
            push_blob(&mut out, value.as_slice());
        },
        Request::Get { key } => {
            out.push(OP_GET);
            push_text(&mut out, key.as_str());
        },
        Request::Del { key } => {
            out.push(OP_DEL);
            push_text(&mut out, key.as_str());
        },
        Request::Ping => {
            out.push(OP_PING);
        },
        Request::Exists { key } => {
            out.push(OP_EXISTS);
            push_text(&mut out, key.as_str());
        },
        Request::PutTtl { key, value, ttl_ms } => {
            out.push(OP_SETX);
            push_text(&mut out, key.as_str());
            push_blob(&mut out, value.as_slice());
            push_u64(&mut out, *ttl_ms);
        },
        Request::Scan { prefix, limit, cursor } => {
            out.push(OP_SCAN);
            push_text(&mut out, prefix.as_str());
            push_u16(&mut out, *limit);
            push_text(&mut out, cursor.as_str());
        },
        Request::Mget { keys } => {
            out.push(OP_MGET);
            push_u16(&mut out, keys.len() as u16);
            let ghost head = out@;
            let ghost all = key_views(keys@);
            let mut i: usize = 0;
            assert(all.take(0) =~= Seq::<Seq<char>>::empty());
            assert(out@ =~= head + text_fields(all.take(0)));
            while i < keys.len()
                invariant
                    i <= keys@.len(),
                    all == key_views(keys@),
                    texts_fit(all),
                    out@ == head + text_fields(all.take(i as int)),
                decreases keys@.len() - i,
            {
                assert(text_fits(all[i as int]));
                push_text(&mut out, keys[i].as_str());
                proof {
                    let next = all.take(i + 1);
                    assert(next.drop_last() =~= all.take(i as int));
                    assert(out@ =~= head + text_fields(next));
                }
                i += 1;
            }
            assert(all.take(i as int) =~= all);
        },
        Request::Save => {
            out.push(OP_SAVE);
        },
        Request::Ttl { key } => {
            out.push(OP_TTL);
            push_text(&mut out, key.as_str());
        },
    }
    assert(out@ =~= request@.encoding());
    out
}

/// Writes a SET request.
pub fn make_set(key: &str, value: &[u8]) -> (frame: Vec<u8>)
    requires
        text_fits(key@),
        blob_fits(value@),
    ensures
        frame@ == (RequestView::Put { key: key@, value: value@ }).encoding(),
{
    let mut frame: Vec<u8> = Vec::new();
    frame.push(OP_SET);
    push_text(&mut frame, key);
    push_blob(&mut frame, value);
    assert(frame@ =~= (RequestView::Put { key: key@, value: value@ }).encoding());
    frame
}

/// Writes a GET request.
pub fn make_get(key: &str) -> (frame: Vec<u8>)
    requires
        text_fits(key@),
    ensures
        frame@ == (RequestView::Get { key: key@ }).encoding(),
{
    let mut frame: Vec<u8> = Vec::new();
    frame.push(OP_GET);
    push_text(&mut frame, key);
    assert(frame@ =~= (RequestView::Get { key: key@ }).encoding());
    frame
}

/// Writes a PING request.
pub fn make_ping() -> (frame: Vec<u8>)
    ensures
        frame@ == RequestView::Ping.encoding(),
{
    let mut frame: Vec<u8> = Vec::new();
    frame.push(OP_PING);
    assert(frame@ =~= RequestView::Ping.encoding());
    frame
}

} // verus!
