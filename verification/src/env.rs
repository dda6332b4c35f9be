//! The environment facade: a synchronized store of byte-string variables
//! with raw and text accessors, and the laws the store obeys.

use vstd::prelude::*;
use vstd::rwlock::RwLock;
use vstd::rwlock::RwLockPredicate;
use vstd::utf8::char_is_scalar;
use vstd::utf8::char_u32_cast;
use vstd::utf8::encode_scalar;
use vstd::utf8::encode_utf8;
use vstd::utf8::encode_utf8_decode_utf8;
use vstd::utf8::encode_utf8_valid_utf8;
use vstd::utf8::has_width_1_encoding;
use vstd::utf8::has_width_2_encoding;
use vstd::utf8::has_width_3_encoding;
use vstd::utf8::is_scalar;
use vstd::utf8::valid_utf8;

pub mod imp;

pub use self::imp::lemma_entries_match_view;
pub use self::imp::lemma_fill_last_wins;
pub use self::imp::lemma_fill_untouched;
pub use self::imp::lemma_keys_unique;
pub use self::imp::lemma_listing_deterministic;
pub use self::imp::lex_lt;
pub use self::imp::lookup_key;
pub use self::imp::sorted_pairs;
pub use self::imp::spec_fill;
pub use self::imp::var_spec;
pub use self::imp::entries_view;
pub use self::imp::EnvMap;
pub use self::imp::VarError;
pub use self::imp::VarErrorSpec;
pub use self::imp::Vars;
pub use self::imp::VarsOs;

verus! {

/// The lock predicate of the store: every value the lock ever guards is
/// a well-formed environment map.
pub struct StoreInv {}

impl RwLockPredicate<EnvMap> for StoreInv {
    open spec fn inv(self, m: EnvMap) -> bool {
        m.wf()
    }
}

/// The synchronized store: one ordered environment map behind an
/// exclusive lock.  Every operation, reads included, holds the lock for
/// its whole duration, and every result is an owned copy, so no access
/// to the map outlives the operation that made it.  Concurrent callers
/// are linearized by the lock; the order in which two racing calls take
/// it is not specified.
pub struct Env {
    store: RwLock<EnvMap, StoreInv>,
}

impl Env {
    /// Creates a store holding no variables.
    pub fn new() -> Env {
        Env { store: RwLock::new(EnvMap::new(), Ghost(StoreInv {})) }
    }

    /// Sets the variable `key` to `value`, inserting or overwriting its
    /// entry.
    pub fn set_var(&self, key: Vec<u8>, value: Vec<u8>) {
        let (mut m, handle) = self.store.acquire_write();
        m.insert(key, value);
        handle.release_write(m);
    }

    /// Removes the variable if it is present; removing an absent key
    /// changes nothing.
    pub fn remove_var(&self, key: &Vec<u8>) {
        let (mut m, handle) = self.store.acquire_write();
        m.remove(key);
        handle.release_write(m);
    }

    /// Raw lookup: an owned copy of the value stored under the key at
    /// the moment the lock was held, or `None` if the key was absent or
    /// is no name the lookup reaches (it holds `'='` or NUL).
    pub fn var_os(&self, key: &Vec<u8>) -> (r: Option<Vec<u8>>)
        ensures
            r is Some ==> lookup_key(key@),
            !lookup_key(key@) ==> r is None,
    {
        let (m, handle) = self.store.acquire_write();
        let r = m.get(key);
        handle.release_write(m);
        r
    }

    /// Text lookup.  Whatever state the store was in when the lock was
    /// held: a value or an undecodable-value error comes only for a key
    /// the lookup reaches, an unreachable key reads as not present, and
    /// an undecodable-value error only ever carries bytes that are not
    /// valid UTF-8 text.
    pub fn var(&self, key: &Vec<u8>) -> (r: Result<String, VarError>)
        ensures
            match r {
                Ok(s) => lookup_key(key@),
                Err(e) => match e@ {
                    VarErrorSpec::NotPresent => true,
                    VarErrorSpec::NotUnicode(raw) => lookup_key(key@) && !valid_utf8(raw),
                },
            },
            !lookup_key(key@) ==> (r matches Err(e) && e@ == VarErrorSpec::NotPresent),
    {
        let (m, handle) = self.store.acquire_write();
        let r = m.var(key);
        handle.release_write(m);
        r
    }

    /// Takes an atomic snapshot of all variables and returns a
    /// byte-string iterator over it.  Whatever state the store was in,
    /// the listing is keyed in strictly increasing lexicographic order.
    pub fn vars_os(&self) -> (it: VarsOs)
        ensures
            it.wf(),
            sorted_pairs(it.remaining()),
    {
        let (m, handle) = self.store.acquire_write();
        let it = m.vars_os();
        handle.release_write(m);
        it
    }

    /// Takes an atomic snapshot of all variables and returns a text
    /// iterator over it.  Whatever state the store was in, the listing
    /// is keyed in strictly increasing lexicographic order.
    pub fn vars(&self) -> (it: Vars)
        ensures
            it.wf(),
            sorted_pairs(it.remaining()),
    {
        Vars::from_raw(self.vars_os())
    }

    /// Sets each pair in source order, one store operation per pair, so
    /// for a repeated key the later pair wins.
    pub fn fill(&self, pairs: &Vec<(Vec<u8>, Vec<u8>)>) {
        let n = pairs.len();
        let mut i: usize = 0;
        while i < n
            invariant
                0 <= i <= n,
                n == pairs.len(),
            decreases n - i,
        {
            let e = &pairs[i];
            self.set_var(imp::clone_bytes(&e.0), imp::clone_bytes(&e.1));
            i = i + 1;
        }
    }
}

proof fn lemma_or_byte_ranges(y: u8)
    by (bit_vector)
    ensures
        (0x80u8 | y) >= 0x80,
        (0xC0u8 | y) >= 0xC0,
        (0xE0u8 | y) >= 0xE0,
        (0xF0u8 | y) >= 0xF0,
{
}

proof fn lemma_ascii_byte_cast(c: u32)
    by (bit_vector)
    requires
        c <= 0x7f,
    ensures
        ((c & 0x7f) as u8) as u32 == c,
{
}

/// No byte of one encoded scalar is the separator or NUL when the
/// scalar itself is neither: a one-byte encoding is the scalar, and
/// every byte of a longer encoding is at least 0x80.
proof fn lemma_encode_scalar_lookup(c: u32)
    requires
        is_scalar(c),
        c != 0x3d,
        c != 0x00,
    ensures
        forall|i: int|
            0 <= i < encode_scalar(c).len() ==> (#[trigger] encode_scalar(c)[i]) != 0x3du8
                && encode_scalar(c)[i] != 0x00u8,
{
    let bs = encode_scalar(c);
    if has_width_1_encoding(c) {
        lemma_ascii_byte_cast(c);
        assert forall|i: int|
            0 <= i < bs.len() implies (#[trigger] bs[i]) != 0x3du8 && bs[i] != 0x00u8 by {
            assert(i == 0);
            assert(bs[0] as u32 == c);
        }
    } else if has_width_2_encoding(c) {
        lemma_or_byte_ranges(((c >> 6) & 0x1F) as u8);
        lemma_or_byte_ranges((c & 0x3F) as u8);
        assert forall|i: int|
            0 <= i < bs.len() implies (#[trigger] bs[i]) != 0x3du8 && bs[i] != 0x00u8 by {
            if i != 0 {
                assert(i == 1);
            }
        }
    } else if has_width_3_encoding(c) {
        lemma_or_byte_ranges(((c >> 12) & 0x0F) as u8);
        lemma_or_byte_ranges(((c >> 6) & 0x3F) as u8);
        lemma_or_byte_ranges((c & 0x3F) as u8);
        assert forall|i: int|
            0 <= i < bs.len() implies (#[trigger] bs[i]) != 0x3du8 && bs[i] != 0x00u8 by {
            if i != 0 && i != 1 {
                assert(i == 2);
            }
        }
    } else {
        lemma_or_byte_ranges(((c >> 18) & 0x7) as u8);
        lemma_or_byte_ranges(((c >> 12) & 0x3F) as u8);
        lemma_or_byte_ranges(((c >> 6) & 0x3F) as u8);
        lemma_or_byte_ranges((c & 0x3F) as u8);
        assert forall|i: int|
            0 <= i < bs.len() implies (#[trigger] bs[i]) != 0x3du8 && bs[i] != 0x00u8 by {
            if i != 0 && i != 1 && i != 2 {
                assert(i == 3);
            }
        }
    }
}

/// A text key free of the separator and terminator characters encodes
/// to a byte string that the single-variable lookup reaches.
pub proof fn lemma_lookup_key_encode(k: Seq<char>)
    requires
        forall|i: int| 0 <= i < k.len() ==> k[i] != '=' && k[i] != '\0',
    ensures
        lookup_key(encode_utf8(k)),
    decreases k.len(),
{
    if k.len() > 0 {
        let c = k[0] as u32;
        char_is_scalar(k[0]);
        if c == 0x3d {
            char_u32_cast(k[0], c);
            char_u32_cast('=', '=' as u32);
            assert(k[0] == '=');
        }
        if c == 0x00 {
            char_u32_cast(k[0], c);
            char_u32_cast('\0', '\0' as u32);
            assert(k[0] == '\0');
        }
        lemma_encode_scalar_lookup(c);
        assert forall|i: int|
            0 <= i < k.drop_first().len() implies k.drop_first()[i] != '=' && k.drop_first()[i]
            != '\0' by {
            assert(k.drop_first()[i] == k[i + 1]);
        }
        lemma_lookup_key_encode(k.drop_first());
        let bs = encode_scalar(c);
        let rest = encode_utf8(k.drop_first());
        assert forall|i: int|
            0 <= i < encode_utf8(k).len() implies (#[trigger] encode_utf8(k)[i]) != 0x3du8
            && encode_utf8(k)[i] != 0x00u8 by {
            if i < bs.len() {
                assert(encode_utf8(k)[i] == bs[i]);
            } else {
                assert(encode_utf8(k)[i] == rest[i - bs.len()]);
                assert(rest[i - bs.len()] != 0x3du8 && rest[i - bs.len()] != 0x00u8);
            }
        }
    }
}

/// Round-trip law: for any text pair whose key holds neither the
/// separator `'='` nor the terminator NUL, storing the UTF-8 encoding of
/// the value under the encoding of the key makes the text lookup of that
/// key yield exactly the value.
pub proof fn lemma_round_trip(m: Map<Seq<u8>, Seq<u8>>, k: Seq<char>, v: Seq<char>)
    requires
        forall|i: int| 0 <= i < k.len() ==> k[i] != '=' && k[i] != '\0',
    ensures
        var_spec(m.insert(encode_utf8(k), encode_utf8(v)), encode_utf8(k)) == Ok::<
            Seq<char>,
            VarErrorSpec,
        >(v),
{
    lemma_lookup_key_encode(k);
    encode_utf8_valid_utf8(v);
    encode_utf8_decode_utf8(v);
}

/// Absence law: a key that is not in the map is reported as not present
/// by the text lookup.
pub proof fn lemma_absent(m: Map<Seq<u8>, Seq<u8>>, k: Seq<u8>)
    requires
        !m.contains_key(k),
    ensures
        var_spec(m, k) == Err::<Seq<char>, VarErrorSpec>(VarErrorSpec::NotPresent),
{
}

/// Removal idempotence law: removing a key twice leaves the map exactly
/// as removing it once does, and either way the key is absent afterwards.
pub proof fn lemma_remove_idempotent(m: Map<Seq<u8>, Seq<u8>>, k: Seq<u8>)
    ensures
        m.remove(k).remove(k) == m.remove(k),
        var_spec(m.remove(k), k) == Err::<Seq<char>, VarErrorSpec>(VarErrorSpec::NotPresent),
{
    assert(m.remove(k).remove(k) =~= m.remove(k));
}

/// Overwrite law: setting a key twice leaves one entry holding the later
/// value, and, for a key the lookup reaches, the text lookup yields that
/// value.
pub proof fn lemma_overwrite(m: Map<Seq<u8>, Seq<u8>>, k: Seq<char>, a: Seq<char>, b: Seq<char>)
    requires
        forall|i: int| 0 <= i < k.len() ==> k[i] != '=' && k[i] != '\0',
    ensures
        m.insert(encode_utf8(k), encode_utf8(a)).insert(encode_utf8(k), encode_utf8(b))
            == m.insert(encode_utf8(k), encode_utf8(b)),
        var_spec(
            m.insert(encode_utf8(k), encode_utf8(a)).insert(encode_utf8(k), encode_utf8(b)),
            encode_utf8(k),
        ) == Ok::<Seq<char>, VarErrorSpec>(b),
{
    assert(m.insert(encode_utf8(k), encode_utf8(a)).insert(encode_utf8(k), encode_utf8(b))
        =~= m.insert(encode_utf8(k), encode_utf8(b)));
    lemma_lookup_key_encode(k);
    encode_utf8_valid_utf8(b);
    encode_utf8_decode_utf8(b);
}

/// Fill ordering law, text form: when the last pair that mentions a key
/// the lookup reaches carries the encoding of a text value, the text
/// lookup after the fill yields that value.
pub proof fn lemma_fill_then_var(
    m: Map<Seq<u8>, Seq<u8>>,
    ps: Seq<(Seq<u8>, Seq<u8>)>,
    i: int,
    v: Seq<char>,
)
    requires
        0 <= i < ps.len(),
        lookup_key(ps[i].0),
        forall|j: int| i < j < ps.len() ==> (#[trigger] ps[j]).0 != ps[i].0,
        ps[i].1 == encode_utf8(v),
    ensures
        var_spec(spec_fill(m, ps), ps[i].0) == Ok::<Seq<char>, VarErrorSpec>(v),
{
    lemma_fill_last_wins(m, ps, i);
    encode_utf8_valid_utf8(v);
    encode_utf8_decode_utf8(v);
}

} // verus!
