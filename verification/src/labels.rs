//! Span labels.
use vstd::prelude::*;
use vstd::string::StringSliceAdditionalSpecFns;

verus! {

/// What the hash of no bytes is.
pub const FNV_OFFSET: u64 = 0xcbf2_9ce4_8422_2325;

/// The factor of each step of the hash.
pub const FNV_PRIME: u64 = 0x100_0000_01b3;

/// The 64-bit FNV-1a hash of bytes.
pub open spec fn fnv1a(bytes: Seq<u8>) -> u64
    decreases bytes.len(),
{
    if bytes.len() == 0 {
        FNV_OFFSET
    } else {
        (fnv1a(bytes.drop_last()) ^ (bytes.last() as u64)).wrapping_mul(FNV_PRIME)
    }
}

/// The label of a generator that is identified by a name: the 64-bit FNV-1a
/// hash of the name.
pub fn label_from_bytes(bytes: &[u8]) -> (r: u64)
    ensures
        r == fnv1a(bytes@),
{
    let mut hash: u64 = FNV_OFFSET;
    let mut i: usize = 0;
    assert(bytes@.take(0) =~= Seq::<u8>::empty());
    while i < bytes.len()
        invariant
            i <= bytes@.len(),
            hash == fnv1a(bytes@.take(i as int)),
        decreases bytes@.len() - i,
    {
        assert(bytes@.take(i + 1).drop_last() =~= bytes@.take(i as int));
        hash = (hash ^ (bytes[i] as u64)).wrapping_mul(FNV_PRIME);
        i = i + 1;
    }
    assert(bytes@.take(i as int) =~= bytes@);
    hash
}

/// What the engine itself draws.
#[derive(Clone, Copy, Debug, PartialEq, Eq, Structural)]
pub enum DrawKind {
    Boolean,
    Integer,
    Float,
    Bytes,
    Text,
    Regex,
    Email,
    Url,
    Domain,
    Date,
    Time,
    DateTime,
    Uuid,
    IpAddress,
    FreshId,
    SetChoice,
    Concurrency,
}

/// The name of what the engine draws.
pub open spec fn draw_name(kind: DrawKind) -> Seq<u8> {
    match kind {
        DrawKind::Boolean => "hegel.boolean".spec_bytes(),
        DrawKind::Integer => "hegel.integer".spec_bytes(),
        DrawKind::Float => "hegel.float".spec_bytes(),
        DrawKind::Bytes => "hegel.bytes".spec_bytes(),
        DrawKind::Text => "hegel.string".spec_bytes(),
        DrawKind::Regex => "hegel.regex".spec_bytes(),
        DrawKind::Email => "hegel.email".spec_bytes(),
        DrawKind::Url => "hegel.url".spec_bytes(),
        DrawKind::Domain => "hegel.domain".spec_bytes(),
        DrawKind::Date => "hegel.date".spec_bytes(),
        DrawKind::Time => "hegel.time".spec_bytes(),
        DrawKind::DateTime => "hegel.datetime".spec_bytes(),
        DrawKind::Uuid => "hegel.uuid".spec_bytes(),
        DrawKind::IpAddress => "hegel.ip_address".spec_bytes(),
        DrawKind::FreshId => "hegel.fresh_id".spec_bytes(),
        DrawKind::SetChoice => "hegel.set_choice".spec_bytes(),
        DrawKind::Concurrency => "hegel.concurrency".spec_bytes(),
    }
}

/// The label of the spans around what the engine draws.
pub fn draw_label(kind: DrawKind) -> (r: u64)
    ensures
        r == fnv1a(draw_name(kind)),
{
    let name: &'static str = match kind {
        DrawKind::Boolean => "hegel.boolean",
        DrawKind::Integer => "hegel.integer",
        DrawKind::Float => "hegel.float",
        DrawKind::Bytes => "hegel.bytes",
        DrawKind::Text => "hegel.string",
        DrawKind::Regex => "hegel.regex",
        DrawKind::Email => "hegel.email",
        DrawKind::Url => "hegel.url",
        DrawKind::Domain => "hegel.domain",
        DrawKind::Date => "hegel.date",
        DrawKind::Time => "hegel.time",
        DrawKind::DateTime => "hegel.datetime",
        DrawKind::Uuid => "hegel.uuid",
        DrawKind::IpAddress => "hegel.ip_address",
        DrawKind::FreshId => "hegel.fresh_id",
        DrawKind::SetChoice => "hegel.set_choice",
        DrawKind::Concurrency => "hegel.concurrency",
    };
    label_from_bytes(name.as_bytes())
}

} // verus!
