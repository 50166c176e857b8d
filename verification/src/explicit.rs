use vstd::prelude::*;
use std::collections::BTreeSet;
use crate::order::{lists_values, sorted_values, values_in_order};
use crate::settings::Settings;
use crate::storage::Storage;

verus! {

broadcast use vstd::laws_cmp::group_laws_cmp;

/// A signed value's bits as an unsigned number.
pub open spec fn unsigned(v: i64) -> u64 {
    v as u64
}

/// An unsigned number's bits as a signed value.
pub open spec fn signed(u: u64) -> i64 {
    u as i64
}

/// Byte `j` of the eight bytes of a value, most significant first.
pub open spec fn be_byte(v: i64, j: int) -> u8 {
    (((v as u64) >> ((56 - 8 * j) as u64)) & 0xFF) as u8
}

/// The values of a sequence, each as eight bytes, most significant first.
pub open spec fn explicit_image(values: Seq<i64>) -> Seq<u8> {
    Seq::new(8 * values.len(), |k: int| be_byte(values[k / 8], k % 8))
}

/// The value that the eight bytes from `at` on spell, most significant first.
pub open spec fn be_value(bytes: Seq<u8>, at: int) -> i64 {
    (((bytes[at] as u64) << 56) | ((bytes[at + 1] as u64) << 48) | ((bytes[at + 2] as u64) << 40) | ((bytes[at
        + 3] as u64) << 32) | ((bytes[at + 4] as u64) << 24) | ((bytes[at + 5] as u64) << 16) | ((bytes[at
        + 6] as u64) << 8) | (bytes[at + 7] as u64)) as i64
}

/// The values that a run of eight-byte groups holds.
pub open spec fn explicit_decoded(bytes: Seq<u8>) -> Set<i64> {
    Set::new(|v: i64| exists|i: int| 0 <= i < bytes.len() / 8 && #[trigger] be_value(bytes, 8 * i) == v)
}

/// The values up to group `n` of a run of eight-byte groups.
pub open spec fn explicit_decoded_upto(bytes: Seq<u8>, n: int) -> Set<i64> {
    Set::new(|v: i64| exists|i: int| 0 <= i < n && #[trigger] be_value(bytes, 8 * i) == v)
}

/// Eight bytes written from a value spell that value.
pub proof fn lemma_be_round_trip(v: i64, bytes: Seq<u8>, at: int)
    requires
        0 <= at,
        at + 8 <= bytes.len(),
        forall|j: int| 0 <= j < 8 ==> bytes[at + j] == #[trigger] be_byte(v, j),
    ensures
        be_value(bytes, at) == v,
{
    let u = v as u64;
    let b0 = bytes[at];
    let b1 = bytes[at + 1];
    let b2 = bytes[at + 2];
    let b3 = bytes[at + 3];
    let b4 = bytes[at + 4];
    let b5 = bytes[at + 5];
    let b6 = bytes[at + 6];
    let b7 = bytes[at + 7];
    assert(b0 == be_byte(v, 0) && b1 == be_byte(v, 1) && b2 == be_byte(v, 2) && b3 == be_byte(v, 3));
    assert(b4 == be_byte(v, 4) && b5 == be_byte(v, 5) && b6 == be_byte(v, 6) && b7 == be_byte(v, 7));
    assert((((b0 as u64) << 56) | ((b1 as u64) << 48) | ((b2 as u64) << 40) | ((b3 as u64) << 32) | ((b4 as u64)
        << 24) | ((b5 as u64) << 16) | ((b6 as u64) << 8) | (b7 as u64)) == u) by (bit_vector)
        requires
            b0 == ((u >> 56) & 0xFF) as u8,
            b1 == ((u >> 48) & 0xFF) as u8,
            b2 == ((u >> 40) & 0xFF) as u8,
            b3 == ((u >> 32) & 0xFF) as u8,
            b4 == ((u >> 24) & 0xFF) as u8,
            b5 == ((u >> 16) & 0xFF) as u8,
            b6 == ((u >> 8) & 0xFF) as u8,
            b7 == ((u >> 0) & 0xFF) as u8,
    ;
    assert((u as i64) == v) by (bit_vector)
        requires
            u == v as u64,
    ;
}

/// The values counted so far, each kept as it came.
#[derive(Debug, Clone, PartialEq)]
pub struct ExplicitStorage {
    pub settings: Settings,
    pub buf: BTreeSet<i64>,
}

impl ExplicitStorage {
    /// The settings are consistent.
    pub open spec fn wf(&self) -> bool {
        self.settings.wf()
    }

    /// No value yet.
    pub fn with_settings(settings: &Settings) -> (r: Self)
        ensures
            r.settings == *settings,
            r.buf@ == Set::<i64>::empty(),
    {
        Self { settings: *settings, buf: BTreeSet::new() }
    }

    /// A copy of the values under other settings.
    pub fn clone_with_settings(&self, settings: &Settings) -> (r: Self)
        ensures
            r.settings == *settings,
            r.buf@ == self.buf@,
    {
        Self { settings: *settings, buf: self.buf.clone() }
    }

    /// Counts a raw value.
    pub fn set(&mut self, value: u64)
        ensures
            final(self).settings == old(self).settings,
            final(self).buf@ == old(self).buf@.insert(signed(value)),
    {
        self.buf.insert(#[verifier::truncate] (value as i64));
    }

    /// More values are held than the explicit threshold allows.
    pub fn is_full(&self) -> (full: bool)
        requires
            self.wf(),
        ensures
            full == (self.buf@.len() > self.settings.spec_explicit_threshold()),
    {
        let threshold: u32 = self.settings.explicit_threshold();
        let len: usize = self.buf.len();
        len > (threshold as usize)
    }

    /// Takes in the values of another storage.
    pub fn union_explicit(&mut self, other: &Self)
        ensures
            final(self).settings == old(self).settings,
            final(self).buf@ == old(self).buf@.union(other.buf@),
    {
        let values = values_in_order(&other.buf);
        let n: usize = values.len();
        let mut i: usize = 0;
        while i < n
            invariant
                i <= n,
                n == values@.len(),
                lists_values(values@, other.buf@),
                self.settings == old(self).settings,
                forall|v: i64| self.buf@.contains(v) <==> (old(self).buf@.contains(v) || exists|t: int| 0 <= t < i && values@[t] == v),
            decreases n - i,
        {
            self.buf.insert(values[i]);
            i += 1;
        }
        proof {
            assert forall|v: i64| self.buf@.contains(v) <==> old(self).buf@.union(other.buf@).contains(v) by {
                if other.buf@.contains(v) {
                    assert(values@.contains(v));
                }
                if exists|t: int| 0 <= t < n && values@[t] == v {
                    let t = choose|t: int| 0 <= t < n && values@[t] == v;
                    assert(values@.contains(values@[t]));
                }
            }
            assert(self.buf@ =~= old(self).buf@.union(other.buf@));
        }
    }

    /// The values, smallest first as signed numbers.
    pub fn iter(&self) -> (out: Vec<u64>)
        ensures
            out@ == sorted_values(self.buf@).map_values(|v: i64| unsigned(v)),
    {
        let values = values_in_order(&self.buf);
        let mut out: Vec<u64> = Vec::new();
        let n: usize = values.len();
        let mut i: usize = 0;
        while i < n
            invariant
                i <= n,
                n == values@.len(),
                out@.len() == i,
                forall|k: int| 0 <= k < i ==> out@[k] == unsigned(values@[k]),
            decreases n - i,
        {
            out.push(#[verifier::truncate] (values[i] as u64));
            i += 1;
        }
        assert(out@ =~= values@.map_values(|v: i64| unsigned(v)));
        out
    }

    /// The number of values.
    pub fn len(&self) -> (n: u64)
        ensures
            n == self.buf@.len(),
    {
        self.buf.len() as u64
    }
}

impl Storage for ExplicitStorage {
    open spec fn storage_wf(&self) -> bool {
        self.wf()
    }

    open spec fn writable(&self) -> bool {
        8 * self.buf@.len() <= usize::MAX
    }

    open spec fn image_len(&self) -> nat {
        8 * self.buf@.len()
    }

    /// The image is the values, smallest first, eight bytes each.
    open spec fn writes(&self, before: Seq<u8>, after: Seq<u8>) -> bool {
        &&& after.len() == before.len()
        &&& after == explicit_image(sorted_values(self.buf@)) + before.skip(8 * self.buf@.len() as int)
    }

    open spec fn readable(settings: Settings, bytes: Seq<u8>) -> bool {
        bytes.len() % 8 == 0
    }

    open spec fn reads(settings: Settings, bytes: Seq<u8>, storage: Self) -> bool {
        &&& storage.settings == settings
        &&& storage.buf@ == explicit_decoded(bytes)
    }

    open spec fn cleared(&self, after: Self) -> bool {
        &&& after.settings == self.settings
        &&& after.buf@ == Set::<i64>::empty()
    }

    fn bytes_size(&self) -> (size: usize) {
        8 * self.buf.len()
    }

    fn to_bytes(&self, buf: &mut [u8]) {
        let values = values_in_order(&self.buf);
        let n: usize = values.len();
        let mut i: usize = 0;
        while i < n
            invariant
                i <= n,
                n == values@.len(),
                8 * n <= usize::MAX,
                8 * n <= buf@.len(),
                buf@.len() == old(buf)@.len(),
                forall|k: int| 0 <= k < 8 * i ==> buf@[k] == be_byte(values@[k / 8], k % 8),
                forall|k: int| 8 * i <= k < buf@.len() ==> buf@[k] == old(buf)@[k],
            decreases n - i,
        {
            let u: u64 = #[verifier::truncate] (values[i] as u64);
            let idx: usize = 8 * i;
            let mut j: usize = 0;
            while j < 8
                invariant
                    j <= 8,
                    i < n,
                    idx == 8 * i,
                    u == unsigned(values@[i as int]),
                    n == values@.len(),
                    8 * n <= buf@.len(),
                    buf@.len() == old(buf)@.len(),
                    forall|k: int| 0 <= k < idx + j ==> buf@[k] == be_byte(values@[k / 8], k % 8),
                    forall|k: int| idx + j <= k < buf@.len() ==> buf@[k] == old(buf)@[k],
                decreases 8 - j,
            {
                let shift: u64 = (56 - 8 * j) as u64;
                buf[idx + j] = #[verifier::truncate] (((u >> shift) & 0xFF) as u8);
                j += 1;
            }
            i += 1;
        }
        assert(buf@ =~= explicit_image(values@) + old(buf)@.skip(8 * self.buf@.len() as int));
    }

    fn from_bytes(settings: &Settings, buf: &[u8]) -> (storage: Self) {
        let mut res = Self::with_settings(settings);
        let mut idx: usize = 0;
        while idx < buf.len()
            invariant
                idx <= buf@.len(),
                idx % 8 == 0,
                buf@.len() % 8 == 0,
                res.settings == *settings,
                res.buf@ == explicit_decoded_upto(buf@, idx as int / 8),
            decreases buf@.len() - idx,
        {
            let u: u64 = ((buf[idx] as u64) << 56) | ((buf[idx + 1] as u64) << 48) | ((buf[idx + 2] as u64)
                << 40) | ((buf[idx + 3] as u64) << 32) | ((buf[idx + 4] as u64) << 24) | ((buf[idx + 5] as u64)
                << 16) | ((buf[idx + 6] as u64) << 8) | (buf[idx + 7] as u64);
            let value: i64 = #[verifier::truncate] (u as i64);
            let ghost before = res.buf@;
            res.buf.insert(value);
            proof {
                let g = idx as int / 8;
                assert(8 * g == idx);
                assert(value == be_value(buf@, 8 * g));
                assert(res.buf@ =~= explicit_decoded_upto(buf@, g + 1));
            }
            idx += 8;
        }
        assert(res.buf@ =~= explicit_decoded(buf@));
        res
    }

    fn clear(&mut self) {
        self.buf.clear();
    }
}

} // verus!
