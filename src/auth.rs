//! mysql_native_password authentication and the handshake response packet.

use vstd::prelude::*;
use vstd::string::*;
use sha1::Digest;
use crate::capabilities::{
    CONNECT_WITH_DB, LONG_FLAG, LONG_PASSWORD, MULTI_RESULTS, MULTI_STATEMENTS, PLUGIN_AUTH,
    PROTOCOL_41, SECURE_CONNECTION,
};
use crate::error::CdcError;
use crate::wire::{push_all, push_u32_le, u32_bytes};

verus! {

/// The SHA-1 digest of the bytes.
pub uninterp spec fn sha1_of(data: Seq<u8>) -> Seq<u8>;

/// Relies on the `sha1` crate's `Sha1::digest`: a 20-byte digest that
/// depends on the input bytes alone.
#[verifier::external_body]
fn sha1(data: &[u8]) -> (r: Vec<u8>)
    ensures
        r@ == sha1_of(data@),
        r@.len() == 20,
{
    sha1::Sha1::digest(data).to_vec()
}

/// Byte-wise XOR of two sequences of the same length.
pub open spec fn xor_seq(a: Seq<u8>, b: Seq<u8>) -> Seq<u8> {
    Seq::new(a.len(), |i: int| a[i] ^ b[i])
}

/// The scrambled password of mysql_native_password:
/// `SHA1(pw) XOR SHA1(scramble ++ SHA1(SHA1(pw)))`, empty for an empty password.
pub open spec fn native_password_reply(pw: Seq<u8>, scramble: Seq<u8>) -> Seq<u8> {
    if pw.len() == 0 {
        Seq::empty()
    } else {
        xor_seq(sha1_of(pw), sha1_of(scramble + sha1_of(sha1_of(pw))))
    }
}

/// XOR of the two 20-byte stages of the reply.
pub fn scramble_reply(stage1: &[u8], stage3: &[u8]) -> (r: Vec<u8>)
    requires
        stage1@.len() == 20,
        stage3@.len() == 20,
    ensures
        r@ == xor_seq(stage1@, stage3@),
{
    let mut out: Vec<u8> = Vec::with_capacity(20);
    let mut i: usize = 0;
    while i < 20
        invariant
            i <= 20,
            stage1@.len() == 20,
            stage3@.len() == 20,
            out@ == xor_seq(stage1@, stage3@).subrange(0, i as int),
        decreases 20 - i,
    {
        out.push(stage1[i] ^ stage3[i]);
        i = i + 1;
        assert(out@ =~= xor_seq(stage1@, stage3@).subrange(0, i as int));
    }
    assert(out@ =~= xor_seq(stage1@, stage3@));
    out
}

/// The mysql_native_password reply to `scramble` for `password`; empty for
/// an empty password, else 20 bytes.
pub fn create_auth_response(password: &str, scramble: &[u8]) -> (r: Vec<u8>)
    ensures
        r@ == native_password_reply(password.spec_bytes(), scramble@),
        password.spec_bytes().len() == 0 ==> r@.len() == 0,
        password.spec_bytes().len() > 0 ==> r@.len() == 20,
{
    let pw = password.as_bytes();
    if pw.len() == 0 {
        return Vec::new();
    }
    let stage1 = sha1(pw);
    let stage2 = sha1(stage1.as_slice());
    let mut combined: Vec<u8> = Vec::new();
    push_all(&mut combined, scramble);
    push_all(&mut combined, stage2.as_slice());
    let stage3 = sha1(combined.as_slice());
    scramble_reply(stage1.as_slice(), stage3.as_slice())
}

/// Capability flags the client asserts; `CONNECT_WITH_DB` when a default
/// schema is given.
pub open spec fn client_capabilities(with_db: bool) -> u32 {
    (LONG_PASSWORD | LONG_FLAG | PROTOCOL_41 | SECURE_CONNECTION | MULTI_STATEMENTS | MULTI_RESULTS
        | PLUGIN_AUTH) | if with_db {
        CONNECT_WITH_DB
    } else {
        0
    }
}

/// Name of the authentication plugin, NUL-ended.
pub open spec fn plugin_name_bytes() -> Seq<u8> {
    seq![
        0x6du8, 0x79, 0x73, 0x71, 0x6c, 0x5f, 0x6e, 0x61, 0x74, 0x69, 0x76, 0x65, 0x5f, 0x70, 0x61,
        0x73, 0x73, 0x77, 0x6f, 0x72, 0x64, 0x00,
    ]
}

/// The handshake response: capabilities, max packet size 0, character
/// set, 23 zero bytes, user name and a NUL, reply length and reply, the
/// schema and a NUL when given, the plugin name and a NUL.
pub open spec fn handshake_bytes(
    user: Seq<u8>,
    reply: Seq<u8>,
    db: Option<Seq<u8>>,
    collation: u8,
) -> Seq<u8> {
    u32_bytes(client_capabilities(db is Some)) + u32_bytes(0) + seq![collation] + Seq::new(
        23,
        |i: int| 0u8,
    ) + user + seq![0u8] + seq![reply.len() as u8] + reply + match db {
        Some(d) => d + seq![0u8],
        None => Seq::empty(),
    } + plugin_name_bytes()
}

/// Builds the client's handshake response packet body.
pub fn create_handshake_response(
    username: &str,
    password: &str,
    database: Option<&str>,
    scramble: &[u8],
    collation: u8,
) -> (r: Result<Vec<u8>, CdcError>)
    ensures
        r is Ok,
        r->Ok_0@ == handshake_bytes(
            username.spec_bytes(),
            native_password_reply(password.spec_bytes(), scramble@),
            match database {
                Some(d) => Some(d.spec_bytes()),
                None => None,
            },
            collation,
        ),
{
    let mut buf: Vec<u8> = Vec::new();
    let caps: u32 = if database.is_some() {
        LONG_PASSWORD | LONG_FLAG | PROTOCOL_41 | SECURE_CONNECTION | MULTI_STATEMENTS
            | MULTI_RESULTS | PLUGIN_AUTH | CONNECT_WITH_DB
    } else {
        LONG_PASSWORD | LONG_FLAG | PROTOCOL_41 | SECURE_CONNECTION | MULTI_STATEMENTS
            | MULTI_RESULTS | PLUGIN_AUTH
    };
    assert(1u32 | 4u32 | 512u32 | 32768u32 | 0x1_0000u32 | 0x2_0000u32 | 0x8_0000u32 == 0xB_8205u32)
        by (bit_vector);
    assert(1u32 | 4u32 | 512u32 | 32768u32 | 0x1_0000u32 | 0x2_0000u32 | 0x8_0000u32 | 8u32
        == 0xB_820Du32) by (bit_vector);
    assert(0xB_8205u32 | 8u32 == 0xB_820Du32) by (bit_vector);
    assert(0xB_8205u32 | 0u32 == 0xB_8205u32) by (bit_vector);
    assert(caps == client_capabilities(database is Some));
    push_u32_le(&mut buf, caps);
    push_u32_le(&mut buf, 0);
    buf.push(collation);
    let mut i: usize = 0;
    let ghost head = buf@;
    while i < 23
        invariant
            i <= 23,
            buf@ == head + Seq::new(i as nat, |k: int| 0u8),
        decreases 23 - i,
    {
        buf.push(0);
        i = i + 1;
        assert(buf@ =~= head + Seq::new(i as nat, |k: int| 0u8));
    }
    push_all(&mut buf, username.as_bytes());
    buf.push(0);
    let reply = create_auth_response(password, scramble);
    buf.push(reply.len() as u8);
    push_all(&mut buf, reply.as_slice());
    match database {
        Some(d) => {
            push_all(&mut buf, d.as_bytes());
            buf.push(0);
        },
        None => {},
    }
    let ghost before_plugin = buf@;
    let plugin: [u8; 22] = [
        0x6d, 0x79, 0x73, 0x71, 0x6c, 0x5f, 0x6e, 0x61, 0x74, 0x69, 0x76, 0x65, 0x5f, 0x70, 0x61,
        0x73, 0x73, 0x77, 0x6f, 0x72, 0x64, 0x00,
    ];
    assert(plugin@ =~= plugin_name_bytes());
    push_all(&mut buf, plugin.as_slice());
    assert(buf@ =~= handshake_bytes(
        username.spec_bytes(),
        native_password_reply(password.spec_bytes(), scramble@),
        match database {
            Some(d) => Some(d.spec_bytes()),
            None => None,
        },
        collation,
    ));
    Ok(buf)
}

} // verus!
