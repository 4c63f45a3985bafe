use vstd::prelude::*;

use crate::error::{EmuxError, ErrorView};
use crate::locator::{apply_spec, applicator_views, Applicator, ApplicatorView};
use crate::text::push_char;
use crate::workspace::{FilesView, Workspace};

verus! {

/// The FNV-1a 64-bit offset basis.
pub const FNV_OFFSET_BASIS: u64 = 0xcbf2_9ce4_8422_2325;

/// The FNV-1a 64-bit prime.
pub const FNV_PRIME: u64 = 0x0000_0100_0000_01b3;

/// One FNV-1a step: xor the byte in, then multiply by the prime modulo 2^64.
pub open spec fn fnv1a_step(h: u64, b: u8) -> u64 {
    (((h ^ (b as u64)) as nat * FNV_PRIME as nat) % 0x1_0000_0000_0000_0000nat) as u64
}

/// FNV-1a over `bytes`, starting from the state `h`.
pub open spec fn fnv1a_from(h: u64, bytes: Seq<u8>) -> u64
    decreases bytes.len(),
{
    if bytes.len() == 0 {
        h
    } else {
        fnv1a_step(fnv1a_from(h, bytes.drop_last()), bytes.last())
    }
}

/// FNV-1a (64-bit) of `bytes`.
pub open spec fn fnv1a_spec(bytes: Seq<u8>) -> u64 {
    fnv1a_from(FNV_OFFSET_BASIS, bytes)
}

/// Hashing a concatenation continues from the hash of the first part.
pub proof fn lemma_fnv1a_concat(h: u64, a: Seq<u8>, b: Seq<u8>)
    ensures
        fnv1a_from(h, a + b) == fnv1a_from(fnv1a_from(h, a), b),
    decreases b.len(),
{
    if b.len() == 0 {
        assert(a + b =~= a);
    } else {
        lemma_fnv1a_concat(h, a, b.drop_last());
        assert((a + b).drop_last() =~= a + b.drop_last());
        assert((a + b).last() == b.last());
    }
}

/// FNV-1a (64-bit). Computed locally so the hash is stable across processes
/// and machines.
pub fn fnv1a_64(bytes: &[u8]) -> (hash: u64)
    ensures
        hash == fnv1a_spec(bytes@),
{
    let mut hash: u64 = FNV_OFFSET_BASIS;
    let mut i: usize = 0;
    while i < bytes.len()
        invariant
            i <= bytes@.len(),
            hash == fnv1a_spec(bytes@.take(i as int)),
        decreases bytes@.len() - i,
    {
        assert(bytes@.take(i + 1).drop_last() =~= bytes@.take(i as int));
        hash = hash ^ (bytes[i] as u64);
        hash = hash.wrapping_mul(FNV_PRIME);
        i = i + 1;
    }
    assert(bytes@.take(i as int) =~= bytes@);
    hash
}

/// The first port of the ephemeral range.
pub const PORT_BASE: u16 = 49152;

/// The number of ports in the ephemeral range `49152..=65535`.
pub const PORT_SPAN: u64 = 16384;

/// The bytes hashed for a worktree and an entry: the UTF-8 of `worktree`, a NUL, `entry`.
pub open spec fn port_seed(worktree: Seq<char>, entry_name: Seq<char>) -> Seq<u8> {
    vstd::utf8::encode_utf8(worktree + seq!['\0'] + entry_name)
}

/// The port for an entry in a worktree: `49152 + fnv1a_64(seed) % 16384`.
pub open spec fn port_for(worktree: Seq<char>, entry_name: Seq<char>) -> u16 {
    (PORT_BASE + fnv1a_spec(port_seed(worktree, entry_name)) % PORT_SPAN) as u16
}

/// Deterministic ephemeral port (49152..=65535) seeded by the absolute worktree path and the
/// entry name.
pub fn deterministic_port(worktree: &str, entry_name: &str) -> (port: u16)
    ensures
        port == port_for(worktree@, entry_name@),
        49152 <= port <= 65535,
{
    let mut seed = worktree.to_owned();
    push_char(&mut seed, '\0');
    let e = crate::text::to_chars(entry_name);
    crate::text::append_chars(&mut seed, &e, 0, e.len());
    assert(e@.subrange(0, e@.len() as int) =~= e@);
    assert(seed@ =~= worktree@ + seq!['\0'] + entry_name@);
    let h = fnv1a_64(seed.as_str().as_bytes());
    PORT_BASE + (h % PORT_SPAN) as u16
}

/// The character of a decimal digit.
pub open spec fn digit_char(d: nat) -> char {
    ((d + 48) as u8) as char
}

/// The decimal numeral of `n`, without leading zeros.
pub open spec fn decimal(n: nat) -> Seq<char>
    decreases n,
{
    if n < 10 {
        seq![digit_char(n)]
    } else {
        decimal(n / 10).push(digit_char(n % 10))
    }
}

/// Appends the decimal numeral of `n` to `s`.
fn append_decimal(s: &mut String, n: u16)
    ensures
        final(s)@ == old(s)@ + decimal(n as nat),
    decreases n,
{
    if n >= 10 {
        append_decimal(s, n / 10);
    }
    let d = (n % 10) as u8;
    push_char(s, (d + 48) as char);
    assert(final(s)@ =~= old(s)@ + decimal(n as nat)) by {
        if n >= 10 {
            assert(decimal(n as nat) == decimal((n / 10) as nat).push(digit_char((n % 10) as nat)));
        }
    };
}

/// The decimal numeral of `n` (`u16::to_string`).
pub fn decimal_string(n: u16) -> (s: String)
    ensures
        s@ == decimal(n as nat),
{
    let mut s = String::new();
    append_decimal(&mut s, n);
    s
}

/// How an entry's override value is computed.
pub enum Overrider {
    /// `emux.o.port`: a deterministic free-range port, stable per worktree and entry.
    Port,
}

/// The override value of an entry in a worktree.
pub open spec fn override_value(o: Overrider, worktree: Seq<char>, entry_name: Seq<char>) -> Seq<char> {
    match o {
        Overrider::Port => decimal(port_for(worktree, entry_name) as nat),
    }
}

/// Writing `value` with each applicator in turn: the workspace reached, and the error that
/// stopped the writing, if one did.
pub open spec fn apply_all(apps: Seq<ApplicatorView>, value: Seq<char>, fs: FilesView) -> (FilesView, Option<ErrorView>)
    decreases apps.len(),
{
    if apps.len() == 0 {
        (fs, None)
    } else {
        match apply_spec(apps[0], value, fs) {
            Ok(fs2) => apply_all(apps.drop_first(), value, fs2),
            Err(e) => (fs, Some(e)),
        }
    }
}

/// Writes `value` with each applicator in turn, stopping at the first error.
pub fn apply_each(applicators: &Vec<Applicator>, value: &str, ws: &mut Workspace) -> (r: Result<(), EmuxError>)
    ensures
        final(ws)@ == apply_all(applicator_views(applicators@), value@, old(ws)@).0,
        match r {
            Ok(()) => apply_all(applicator_views(applicators@), value@, old(ws)@).1 is None,
            Err(e) => apply_all(applicator_views(applicators@), value@, old(ws)@).1 == Some(e@),
        },
{
    let ghost apps = applicator_views(applicators@);
    let mut i: usize = 0;
    assert(apps.skip(0) =~= apps);
    while i < applicators.len()
        invariant
            i <= applicators@.len(),
            apps == applicator_views(applicators@),
            apply_all(apps, value@, old(ws)@) == apply_all(apps.skip(i as int), value@, ws@),
        decreases applicators@.len() - i,
    {
        assert(apps.skip(i as int)[0] == applicators@[i as int]@);
        assert(apps.skip(i as int).drop_first() =~= apps.skip(i + 1));
        match applicators[i].apply(value, ws) {
            Ok(()) => {},
            Err(e) => {
                return Err(e);
            },
        }
        i = i + 1;
    }
    assert(apps.skip(i as int) =~= Seq::<ApplicatorView>::empty());
    Ok(())
}

impl Overrider {
    /// The override value for this entry in this worktree (`worktree` is the absolute path of
    /// the worktree directory).
    pub fn value(&self, worktree: &str, entry_name: &str) -> (r: Result<String, EmuxError>)
        ensures
            r is Ok,
            r matches Ok(v) ==> v@ == override_value(*self, worktree@, entry_name@),
    {
        match self {
            Overrider::Port => Ok(decimal_string(deterministic_port(worktree, entry_name))),
        }
    }

    /// Writes this entry's override value with each applicator in turn.
    pub fn apply(&self, worktree: &str, entry_name: &str, applicators: &Vec<Applicator>, ws: &mut Workspace) -> (r: Result<(), EmuxError>)
        ensures
            ({
                let run = apply_all(applicator_views(applicators@), override_value(*self, worktree@, entry_name@), old(ws)@);
                &&& final(ws)@ == run.0
                &&& match r {
                    Ok(()) => run.1 is None,
                    Err(e) => run.1 == Some(e@),
                }
            }),
    {
        let value = match self.value(worktree, entry_name) {
            Ok(v) => v,
            Err(e) => {
                return Err(e);
            },
        };
        apply_each(applicators, value.as_str(), ws)
    }
}

} // verus!
