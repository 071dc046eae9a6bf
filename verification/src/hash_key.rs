use vstd::prelude::*;
use std::hash::{DefaultHasher, Hasher};
use vstd::std_specs::hash::DefaultHasherAdditionalSpecFns;

verus! {

/// A key that the hash table can store: it hashes deterministically with
/// std's `DefaultHasher` and compares by its view.
pub trait HashKey: View + Sized {
    /// The hash of a key with view `key`.
    spec fn spec_hash(key: Self::V) -> u64;

    /// Feeds the key to a fresh `DefaultHasher` and returns what it finishes with.
    fn key_hash(&self) -> (h: u64)
        ensures
            h == Self::spec_hash(self@),
    ;

    /// Whether two keys are the same key.
    fn key_eq(&self, other: &Self) -> (b: bool)
        ensures
            b == (self@ == other@),
    ;
}

/// An integer key hashes as the eight bytes of its little-endian encoding.
impl HashKey for u64 {
    open spec fn spec_hash(key: u64) -> u64 {
        DefaultHasher::spec_finish(seq![vstd::bytes::spec_u64_to_le_bytes(key)])
    }

    fn key_hash(&self) -> (h: u64) {
        let bytes = vstd::bytes::u64_to_le_bytes(*self);
        let mut hasher = DefaultHasher::new();
        hasher.write(bytes.as_slice());
        hasher.finish()
    }

    fn key_eq(&self, other: &Self) -> (b: bool) {
        *self == *other
    }
}

/// A 32-bit key hashes as the four bytes of its little-endian encoding.
impl HashKey for u32 {
    open spec fn spec_hash(key: u32) -> u64 {
        DefaultHasher::spec_finish(seq![vstd::bytes::spec_u32_to_le_bytes(key)])
    }

    fn key_hash(&self) -> (h: u64) {
        let bytes = vstd::bytes::u32_to_le_bytes(*self);
        let mut hasher = DefaultHasher::new();
        hasher.write(bytes.as_slice());
        hasher.finish()
    }

    fn key_eq(&self, other: &Self) -> (b: bool) {
        *self == *other
    }
}

/// A 16-bit key hashes as the two bytes of its little-endian encoding.
impl HashKey for u16 {
    open spec fn spec_hash(key: u16) -> u64 {
        DefaultHasher::spec_finish(seq![vstd::bytes::spec_u16_to_le_bytes(key)])
    }

    fn key_hash(&self) -> (h: u64) {
        let bytes = vstd::bytes::u16_to_le_bytes(*self);
        let mut hasher = DefaultHasher::new();
        hasher.write(bytes.as_slice());
        hasher.finish()
    }

    fn key_eq(&self, other: &Self) -> (b: bool) {
        *self == *other
    }
}

/// A byte key hashes as itself.
impl HashKey for u8 {
    open spec fn spec_hash(key: u8) -> u64 {
        DefaultHasher::spec_finish(seq![seq![key]])
    }

    fn key_hash(&self) -> (h: u64) {
        let bytes: std::vec::Vec<u8> = vec![*self];
        assert(bytes@ =~= seq![*self]);
        let mut hasher = DefaultHasher::new();
        hasher.write(bytes.as_slice());
        assert(hasher@ =~= seq![seq![*self]]);
        hasher.finish()
    }

    fn key_eq(&self, other: &Self) -> (b: bool) {
        *self == *other
    }
}

/// A signed 64-bit key hashes as the bytes of the same bits read unsigned.
impl HashKey for i64 {
    open spec fn spec_hash(key: i64) -> u64 {
        DefaultHasher::spec_finish(seq![vstd::bytes::spec_u64_to_le_bytes(key as u64)])
    }

    fn key_hash(&self) -> (h: u64) {
        let bytes = vstd::bytes::u64_to_le_bytes(*self as u64);
        let mut hasher = DefaultHasher::new();
        hasher.write(bytes.as_slice());
        hasher.finish()
    }

    fn key_eq(&self, other: &Self) -> (b: bool) {
        *self == *other
    }
}

/// A signed 32-bit key hashes as the bytes of the same bits read unsigned.
impl HashKey for i32 {
    open spec fn spec_hash(key: i32) -> u64 {
        DefaultHasher::spec_finish(seq![vstd::bytes::spec_u32_to_le_bytes(key as u32)])
    }

    fn key_hash(&self) -> (h: u64) {
        let bytes = vstd::bytes::u32_to_le_bytes(*self as u32);
        let mut hasher = DefaultHasher::new();
        hasher.write(bytes.as_slice());
        hasher.finish()
    }

    fn key_eq(&self, other: &Self) -> (b: bool) {
        *self == *other
    }
}

/// A 128-bit key hashes as the sixteen bytes of its little-endian encoding.
impl HashKey for u128 {
    open spec fn spec_hash(key: u128) -> u64 {
        DefaultHasher::spec_finish(seq![vstd::bytes::spec_u128_to_le_bytes(key)])
    }

    fn key_hash(&self) -> (h: u64) {
        let bytes = vstd::bytes::u128_to_le_bytes(*self);
        let mut hasher = DefaultHasher::new();
        hasher.write(bytes.as_slice());
        hasher.finish()
    }

    fn key_eq(&self, other: &Self) -> (b: bool) {
        *self == *other
    }
}

/// A pointer-sized key hashes as the bytes of its little-endian encoding,
/// as many as a `usize` has.
impl HashKey for usize {
    open spec fn spec_hash(key: usize) -> u64 {
        if usize::BITS == 64 {
            DefaultHasher::spec_finish(seq![vstd::bytes::spec_u64_to_le_bytes(key as u64)])
        } else {
            DefaultHasher::spec_finish(seq![vstd::bytes::spec_u32_to_le_bytes(key as u32)])
        }
    }

    fn key_hash(&self) -> (h: u64) {
        let bytes = if usize::BITS == 64 {
            vstd::bytes::u64_to_le_bytes(*self as u64)
        } else {
            vstd::bytes::u32_to_le_bytes(*self as u32)
        };
        let mut hasher = DefaultHasher::new();
        hasher.write(bytes.as_slice());
        hasher.finish()
    }

    fn key_eq(&self, other: &Self) -> (b: bool) {
        *self == *other
    }
}

/// A signed 128-bit key hashes as the bytes of the same bits read unsigned.
impl HashKey for i128 {
    open spec fn spec_hash(key: i128) -> u64 {
        DefaultHasher::spec_finish(seq![vstd::bytes::spec_u128_to_le_bytes(key as u128)])
    }

    fn key_hash(&self) -> (h: u64) {
        let bytes = vstd::bytes::u128_to_le_bytes(*self as u128);
        let mut hasher = DefaultHasher::new();
        hasher.write(bytes.as_slice());
        hasher.finish()
    }

    fn key_eq(&self, other: &Self) -> (b: bool) {
        *self == *other
    }
}

/// A signed pointer-sized key hashes as the bytes of the same bits read
/// unsigned, as many as a `usize` has.
impl HashKey for isize {
    open spec fn spec_hash(key: isize) -> u64 {
        if usize::BITS == 64 {
            DefaultHasher::spec_finish(seq![vstd::bytes::spec_u64_to_le_bytes(key as u64)])
        } else {
            DefaultHasher::spec_finish(seq![vstd::bytes::spec_u32_to_le_bytes(key as u32)])
        }
    }

    fn key_hash(&self) -> (h: u64) {
        let bytes = if usize::BITS == 64 {
            vstd::bytes::u64_to_le_bytes(*self as u64)
        } else {
            vstd::bytes::u32_to_le_bytes(*self as u32)
        };
        let mut hasher = DefaultHasher::new();
        hasher.write(bytes.as_slice());
        hasher.finish()
    }

    fn key_eq(&self, other: &Self) -> (b: bool) {
        *self == *other
    }
}

/// A signed 16-bit key hashes as the bytes of the same bits read unsigned.
impl HashKey for i16 {
    open spec fn spec_hash(key: i16) -> u64 {
        DefaultHasher::spec_finish(seq![vstd::bytes::spec_u16_to_le_bytes(key as u16)])
    }

    fn key_hash(&self) -> (h: u64) {
        let bytes = vstd::bytes::u16_to_le_bytes(*self as u16);
        let mut hasher = DefaultHasher::new();
        hasher.write(bytes.as_slice());
        hasher.finish()
    }

    fn key_eq(&self, other: &Self) -> (b: bool) {
        *self == *other
    }
}

/// A signed byte key hashes as the same bits read unsigned.
impl HashKey for i8 {
    open spec fn spec_hash(key: i8) -> u64 {
        DefaultHasher::spec_finish(seq![seq![key as u8]])
    }

    fn key_hash(&self) -> (h: u64) {
        let byte: u8 = *self as u8;
        let bytes: std::vec::Vec<u8> = vec![byte];
        assert(bytes@ =~= seq![byte]);
        let mut hasher = DefaultHasher::new();
        hasher.write(bytes.as_slice());
        assert(hasher@ =~= seq![seq![byte]]);
        hasher.finish()
    }

    fn key_eq(&self, other: &Self) -> (b: bool) {
        *self == *other
    }
}

/// A boolean key hashes as the byte `1` for `true` and `0` for `false`.
impl HashKey for bool {
    open spec fn spec_hash(key: bool) -> u64 {
        DefaultHasher::spec_finish(seq![seq![if key { 1u8 } else { 0u8 }]])
    }

    fn key_hash(&self) -> (h: u64) {
        let byte: u8 = if *self { 1 } else { 0 };
        let bytes: std::vec::Vec<u8> = vec![byte];
        assert(bytes@ =~= seq![byte]);
        let mut hasher = DefaultHasher::new();
        hasher.write(bytes.as_slice());
        assert(hasher@ =~= seq![seq![byte]]);
        hasher.finish()
    }

    fn key_eq(&self, other: &Self) -> (b: bool) {
        *self == *other
    }
}

/// A character key hashes as the four bytes of its code point.
impl HashKey for char {
    open spec fn spec_hash(key: char) -> u64 {
        DefaultHasher::spec_finish(seq![vstd::bytes::spec_u32_to_le_bytes(key as u32)])
    }

    fn key_hash(&self) -> (h: u64) {
        let bytes = vstd::bytes::u32_to_le_bytes(*self as u32);
        let mut hasher = DefaultHasher::new();
        hasher.write(bytes.as_slice());
        hasher.finish()
    }

    fn key_eq(&self, other: &Self) -> (b: bool) {
        *self == *other
    }
}

/// A string key hashes as its UTF-8 bytes followed by the byte `0xFF`, which
/// is how std hashes a `str`.
impl HashKey for String {
    open spec fn spec_hash(key: Seq<char>) -> u64 {
        DefaultHasher::spec_finish(seq![vstd::utf8::encode_utf8(key), seq![0xFFu8]])
    }

    fn key_hash(&self) -> (h: u64) {
        let terminator: std::vec::Vec<u8> = vec![0xFFu8];
        let mut hasher = DefaultHasher::new();
        let bytes = self.as_str().as_bytes();
        hasher.write(bytes);
        hasher.write(terminator.as_slice());
        assert(terminator@ =~= seq![0xFFu8]);
        assert(hasher@ =~= seq![vstd::utf8::encode_utf8(self@), seq![0xFFu8]]);
        hasher.finish()
    }

    fn key_eq(&self, other: &Self) -> (b: bool) {
        *self == *other
    }
}

/// A string slice key hashes as a `String` with the same text does, and two
/// slices are the same key when their UTF-8 bytes agree.
impl<'a> HashKey for &'a str {
    open spec fn spec_hash(key: Seq<char>) -> u64 {
        DefaultHasher::spec_finish(seq![vstd::utf8::encode_utf8(key), seq![0xFFu8]])
    }

    fn key_hash(&self) -> (h: u64) {
        let terminator: std::vec::Vec<u8> = vec![0xFFu8];
        let mut hasher = DefaultHasher::new();
        hasher.write(self.as_bytes());
        hasher.write(terminator.as_slice());
        assert(terminator@ =~= seq![0xFFu8]);
        assert(hasher@ =~= seq![vstd::utf8::encode_utf8(self@), seq![0xFFu8]]);
        hasher.finish()
    }

    fn key_eq(&self, other: &Self) -> (b: bool) {
        let a = self.as_bytes();
        let c = other.as_bytes();
        proof {
            vstd::utf8::encode_utf8_decode_utf8(self@);
            vstd::utf8::encode_utf8_decode_utf8(other@);
            assert(a@ == vstd::utf8::encode_utf8(self@));
            assert(c@ == vstd::utf8::encode_utf8(other@));
        }
        if a.len() != c.len() {
            return false;
        }
        let mut i: usize = 0;
        while i < a.len()
            invariant
                i <= a@.len(),
                a@.len() == c@.len(),
                a@ == vstd::utf8::encode_utf8(self@),
                c@ == vstd::utf8::encode_utf8(other@),
                a@.subrange(0, i as int) == c@.subrange(0, i as int),
            decreases a@.len() - i,
        {
            if a[i] != c[i] {
                assert(a@ != c@);
                return false;
            }
            assert(a@.subrange(0, i + 1) =~= a@.subrange(0, i as int).push(a@[i as int]));
            assert(c@.subrange(0, i + 1) =~= c@.subrange(0, i as int).push(c@[i as int]));
            i = i + 1;
        }
        assert(a@ =~= a@.subrange(0, i as int));
        assert(c@ =~= c@.subrange(0, i as int));
        true
    }
}

/// The unit key writes nothing to the hasher.
impl HashKey for () {
    open spec fn spec_hash(key: ()) -> u64 {
        DefaultHasher::spec_finish(Seq::empty())
    }

    fn key_hash(&self) -> (h: u64) {
        let hasher = DefaultHasher::new();
        hasher.finish()
    }

    fn key_eq(&self, other: &Self) -> (b: bool) {
        true
    }
}

} // verus!
