use vstd::prelude::*;
use crate::Hll;
use crate::dense::{dense_len, DenseRegisters};
use crate::explicit::{
    be_byte, be_value, explicit_decoded, explicit_image, lemma_be_round_trip, ExplicitStorage,
};
use crate::order::{
    lemma_listing_len, lemma_listings_exist, sorted_entries, sorted_keys, sorted_values,
};
use crate::registers::lemma_field_bound;
use crate::settings::{
    cutoff_byte_in_range, lemma_register_count, lemma_register_max, spec_threshold_code,
    spec_unpack_threshold, Settings,
};
use crate::sparse::{lemma_short_word, short_word, sparse_decoded, SparseRegisters};
use crate::storage::Storage;
use crate::utils::{bit_at, bits_value, lemma_same_stream, lemma_same_value_bits};

verus! {

/// The byte of an image that holds the layout of the registers: the width less one in the
/// high three bits, the logarithm of their number in the low five.
pub open spec fn spec_layout_byte(settings: Settings) -> u8 {
    (((settings.reg_width - 1) as u8) << 5) | (settings.log_2m as u8)
}

/// The version of an image: the high four bits of its first byte.
pub open spec fn image_version(bytes: Seq<u8>) -> u8 {
    bytes[0] >> 4
}

/// The kind of storage of an image: the low four bits of its first byte.
pub open spec fn image_type(bytes: Seq<u8>) -> u8 {
    bytes[0] & 0x0F
}

/// The logarithm of the number of registers of an image.
pub open spec fn image_log_2m(bytes: Seq<u8>) -> u8 {
    bytes[1] & 0x1F
}

/// The width of a register of an image.
pub open spec fn image_reg_width(bytes: Seq<u8>) -> u8 {
    ((bytes[1] >> 5) + 1) as u8
}

/// The settings that the header of an image holds.
pub open spec fn image_settings(bytes: Seq<u8>) -> Settings {
    Settings::spec_new(
        image_log_2m(bytes) as u32,
        image_reg_width(bytes) as u32,
        spec_unpack_threshold(bytes[2]),
        bytes[2] >> 6 == 1,
    )
}

/// The images that can be read: the first byte is there; where the version is 1, so is
/// the rest of the header, with a threshold that fits; and where the header is valid,
/// the rest is of a size that the kind of storage can take.
pub open spec fn image_readable(bytes: Seq<u8>) -> bool {
    &&& bytes.len() >= 1
    &&& image_version(bytes) == 1 ==> {
        &&& bytes.len() >= 3
        &&& cutoff_byte_in_range(bytes[2])
        &&& image_log_2m(bytes) >= 4 ==> {
            if image_type(bytes) == 2 {
                ExplicitStorage::readable(image_settings(bytes), bytes.skip(3))
            } else if image_type(bytes) == 3 {
                SparseRegisters::readable(image_settings(bytes), bytes.skip(3))
            } else if image_type(bytes) == 4 {
                DenseRegisters::readable(image_settings(bytes), bytes.skip(3))
            } else {
                true
            }
        }
    }
}

/// `n` zero bytes.
pub open spec fn blank(n: nat) -> Seq<u8> {
    Seq::new(n, |k: int| 0u8)
}

/// The first `t` short words of a sparse storage's image give the first `t` entries.
proof fn lemma_decoded_entries(s: SparseRegisters, bytes: Seq<u8>, t: nat)
    requires
        s.wf(),
        s.writable(),
        s.writes(blank(s.image_len()), bytes),
        t <= sorted_entries(s.buf@).len(),
    ensures
        sparse_decoded(bytes, s.settings, t) == Map::new(
            |k: u32| exists|u: int| 0 <= u < t && sorted_entries(s.buf@)[u].0 == k,
            |k: u32| s.buf@[k],
        ),
    decreases t,
{
    let entries = sorted_entries(s.buf@);
    let keys = sorted_keys(s.buf@);
    let goal = Map::new(|k: u32| exists|u: int| 0 <= u < t && entries[u].0 == k, |k: u32| s.buf@[k]);
    lemma_listings_exist(Set::empty(), s.buf@);
    if t == 0 {
        assert(sparse_decoded(bytes, s.settings, t) =~= goal);
    } else {
        let before = (t - 1) as nat;
        lemma_decoded_entries(s, bytes, before);
        let w = s.settings.log_2m + s.settings.reg_width;
        let entry = entries[t - 1];
        assert(keys.contains(keys[t - 1]));
        assert(s.buf@.contains_key(entry.0));
        lemma_register_count(s.settings.log_2m);
        lemma_register_max(s.settings.reg_width);
        lemma_short_word(entry, s.settings.log_2m, s.settings.reg_width);
        let word = bits_value(bytes, (t - 1) * w, w as nat) as u32;
        assert(bits_value(bytes, (t - 1) * s.word_bits(), s.word_bits()) == short_word(entry, s.settings.reg_width));
        assert(word == short_word(entry, s.settings.reg_width));
        let prior = sparse_decoded(bytes, s.settings, before);
        assert(sparse_decoded(bytes, s.settings, t) == prior.insert(entry.0, entry.1));
        assert forall|k: u32| goal.contains_key(k) <==> prior.insert(entry.0, entry.1).contains_key(k) by {
            if exists|u: int| 0 <= u < t && entries[u].0 == k {
                let u = choose|u: int| 0 <= u < t && entries[u].0 == k;
                if u < t - 1 {
                    assert(prior.contains_key(k));
                }
            }
            if prior.contains_key(k) {
                let u = choose|u: int| 0 <= u < before && entries[u].0 == k;
                assert(0 <= u < t && entries[u].0 == k);
            }
            if k == entry.0 {
                assert(0 <= t - 1 < t && entries[t - 1].0 == k);
            }
        }
        assert(sparse_decoded(bytes, s.settings, t) =~= goal);
    }
}

/// The short words of a sparse storage's image give the storage's registers back, as long
/// as the bits that fill the last byte are too few for one more short word.
pub proof fn law_sparse_round_trip(s: SparseRegisters, bytes: Seq<u8>)
    requires
        s.wf(),
        s.writable(),
        s.writes(blank(s.image_len()), bytes),
        (8 * s.image_len()) as int / (s.word_bits() as int) == s.buf@.len(),
    ensures
        sparse_decoded(bytes, s.settings, ((8 * bytes.len()) as int / (s.word_bits() as int)) as nat) == s.buf@,
{
    let entries = sorted_entries(s.buf@);
    let keys = sorted_keys(s.buf@);
    lemma_listings_exist(Set::empty(), s.buf@);
    lemma_listing_len(Set::empty(), s.buf@);
    let n = entries.len();
    lemma_decoded_entries(s, bytes, n);
    let got = sparse_decoded(bytes, s.settings, n);
    assert forall|k: u32| got.contains_key(k) <==> s.buf@.contains_key(k) by {
        if got.contains_key(k) {
            let u = choose|u: int| 0 <= u < n && entries[u].0 == k;
            assert(keys.contains(keys[u]));
        }
        if s.buf@.contains_key(k) {
            assert(keys.contains(k));
            let u = choose|u: int| 0 <= u < keys.len() && keys[u] == k;
            assert(entries[u].0 == k);
        }
    }
    assert(got =~= s.buf@);
}

/// The threshold that a threshold's code gives has the same code.
pub proof fn lemma_threshold_code(explicit_threshold: i32)
    ensures
        0 <= spec_threshold_code(explicit_threshold) <= 32 || spec_threshold_code(explicit_threshold) == 63,
        spec_threshold_code(spec_unpack_threshold(spec_threshold_code(explicit_threshold) as u8))
            == spec_threshold_code(explicit_threshold),
        spec_unpack_threshold((spec_threshold_code(explicit_threshold) as u8) | 0x40) == spec_unpack_threshold(
            spec_threshold_code(explicit_threshold) as u8,
        ),
        cutoff_byte_in_range(spec_threshold_code(explicit_threshold) as u8),
        cutoff_byte_in_range((spec_threshold_code(explicit_threshold) as u8) | 0x40),
        ((spec_threshold_code(explicit_threshold) as u8) >> 6) != 1,
        (((spec_threshold_code(explicit_threshold) as u8) | 0x40) >> 6) == 1,
{
    let code = spec_threshold_code(explicit_threshold);
    let unsigned = explicit_threshold as u32;
    assert(explicit_threshold != 0 ==> unsigned != 0) by (bit_vector)
        requires
            unsigned == explicit_threshold as u32,
    ;
    let zeros = vstd::std_specs::bits::u32_leading_zeros(unsigned);
    assert(0 <= zeros <= 32);
    assert(0 <= code <= 32 || code == 63);
    let c = code as u8;
    assert((c & 0x3F) == c && ((c | 0x40) & 0x3F) == c && (c >> 6) != 1 && ((c | 0x40) >> 6) == 1) by (bit_vector)
        requires
            c <= 63,
    ;
    let back = spec_unpack_threshold(c);
    if c != 0 && c != 63 {
        let k: u32 = (c - 1) as u32;
        let bit: u32 = 1u32 << k;
        assert(back == bit as i32);
        assert((bit as i32) != -1 && (bit as i32) != 0 && ((bit as i32) as u32) == bit && bit != 0) by (bit_vector)
            requires
                k <= 31,
                bit == 1u32 << k,
        ;
        let z = vstd::std_specs::bits::u32_leading_zeros(bit);
        assert(0 <= z < 32);
        let j: u32 = (31 - z) as u32;
        assert((bit >> j) & 1u32 != 0u32);
        assert(j == k) by (bit_vector)
            requires
                k <= 31,
                j <= 31,
                bit == 1u32 << k,
                (bit >> j) & 1u32 != 0u32,
        ;
    }
}

/// The header of an image gives the settings back, but for an explicit threshold that is
/// no power of two: that one comes back as the power of two below it.
pub proof fn lemma_header_round_trip(settings: Settings, type_id: u8, bytes: Seq<u8>)
    requires
        settings.wf(),
        1 <= type_id <= 4,
        bytes.len() >= 3,
        bytes[0] == 0x10u8 | type_id,
        bytes[1] == spec_layout_byte(settings),
        bytes[2] == settings.spec_cutoff_byte(),
    ensures
        image_version(bytes) == 1,
        image_type(bytes) == type_id,
        image_log_2m(bytes) == settings.log_2m,
        image_reg_width(bytes) == settings.reg_width,
        cutoff_byte_in_range(bytes[2]),
        image_settings(bytes).wf(),
        image_settings(bytes) == (Settings {
            explicit_threshold: spec_unpack_threshold(bytes[2]),
            ..settings
        }),
        image_settings(bytes).spec_cutoff_byte() == bytes[2],
        spec_layout_byte(image_settings(bytes)) == bytes[1],
{
    let first = bytes[0];
    assert((first >> 4) == 1 && (first & 0x0F) == type_id) by (bit_vector)
        requires
            1 <= type_id <= 4,
            first == 0x10u8 | type_id,
    ;
    let x: u8 = (settings.reg_width - 1) as u8;
    let y: u8 = settings.log_2m as u8;
    let second = bytes[1];
    assert((second & 0x1F) == y && (second >> 5) + 1 == x + 1 && (second >> 5) < 8) by (bit_vector)
        requires
            x <= 7,
            y <= 31,
            second == (x << 5) | y,
    ;
    lemma_threshold_code(settings.explicit_threshold);
    lemma_register_count(settings.log_2m);
    lemma_register_max(settings.reg_width);
    if settings.sparse_threshold is Some {
        crate::settings::lemma_sparse_threshold(settings.log_2m, settings.reg_width);
    }
}

/// The values of an explicit storage's image are the storage's values.
pub proof fn law_explicit_round_trip(e: ExplicitStorage, bytes: Seq<u8>)
    requires
        e.writes(blank(e.image_len()), bytes),
    ensures
        bytes.len() == 8 * e.buf@.len(),
        bytes == explicit_image(sorted_values(e.buf@)),
        explicit_decoded(bytes) == e.buf@,
{
    let values = sorted_values(e.buf@);
    lemma_listings_exist(e.buf@, Map::empty());
    lemma_listing_len(e.buf@, Map::empty());
    assert(bytes =~= explicit_image(values));
    let got = explicit_decoded(bytes);
    assert forall|v: i64| got.contains(v) <==> e.buf@.contains(v) by {
        if got.contains(v) {
            let i = choose|i: int| 0 <= i < bytes.len() / 8 && #[trigger] be_value(bytes, 8 * i) == v;
            assert forall|j: int| 0 <= j < 8 implies bytes[8 * i + j] == #[trigger] be_byte(values[i], j) by {
                assert((8 * i + j) / 8 == i && (8 * i + j) % 8 == j);
            }
            lemma_be_round_trip(values[i], bytes, 8 * i);
            assert(values.contains(values[i]));
        }
        if e.buf@.contains(v) {
            assert(values.contains(v));
            let i = choose|i: int| 0 <= i < values.len() && values[i] == v;
            assert forall|j: int| 0 <= j < 8 implies bytes[8 * i + j] == #[trigger] be_byte(v, j) by {
                assert((8 * i + j) / 8 == i && (8 * i + j) % 8 == j);
            }
            lemma_be_round_trip(v, bytes, 8 * i);
            assert(0 <= i < bytes.len() / 8 && be_value(bytes, 8 * i) == v);
        }
    }
    assert(got =~= e.buf@);
}

/// What the short words of a stream give depends on the layout of the registers alone.
pub proof fn lemma_decoded_same_geometry(bytes: Seq<u8>, a: Settings, b: Settings, n: nat)
    requires
        a.same_geometry(&b),
    ensures
        sparse_decoded(bytes, a, n) == sparse_decoded(bytes, b, n),
    decreases n,
{
    if n > 0 {
        lemma_decoded_same_geometry(bytes, a, b, (n - 1) as nat);
    }
}

/// Two sparse storages with the same registers and the same layout have the same image.
pub proof fn lemma_sparse_one_image(a: SparseRegisters, b: SparseRegisters, first: Seq<u8>, second: Seq<u8>)
    requires
        a.writable(),
        a.buf@ == b.buf@,
        a.settings.same_geometry(&b.settings),
        a.writes(blank(a.image_len()), first),
        b.writes(blank(b.image_len()), second),
    ensures
        first == second,
{
    let w = a.word_bits() as int;
    let entries = sorted_entries(a.buf@);
    let n = entries.len() as int;
    let zero = blank(a.image_len());
    assert(b.image_len() == a.image_len());
    assert forall|k: int| 0 <= k < 8 * first.len() implies #[trigger] bit_at(first, k) == bit_at(second, k) by {
        if k < n * w {
            let i = k / w;
            assert(i * w <= k < i * w + w && 0 <= i < n) by (nonlinear_arith)
                requires
                    i == k / w,
                    0 <= k < n * w,
                    w >= 1,
            ;
            assert(bits_value(first, i * a.word_bits(), a.word_bits()) == short_word(entries[i], a.settings.reg_width));
            assert(bits_value(second, i * b.word_bits(), b.word_bits()) == short_word(
                entries[i],
                b.settings.reg_width,
            ));
            lemma_same_value_bits(first, second, i * w, w as nat, k);
        } else {
            assert(bit_at(first, k) == bit_at(zero, k));
            assert(bit_at(second, k) == bit_at(zero, k));
        }
    }
    lemma_same_stream(first, second);
}

/// Two dense storages with the same registers and the same layout hold the same bytes.
pub proof fn law_dense_one_image(a: DenseRegisters, b: DenseRegisters)
    requires
        a.wf(),
        b.wf(),
        a.settings.same_geometry(&b.settings),
        a.regs() == b.regs(),
    ensures
        a.buf@ == b.buf@,
{
    let w = a.settings.reg_width as int;
    let m = a.settings.m() as int;
    lemma_register_count(a.settings.log_2m);
    a.lemma_layout(0);
    b.lemma_layout(0);
    assert forall|k: int| 0 <= k < 8 * a.buf@.len() implies #[trigger] bit_at(a.buf@, k) == bit_at(b.buf@, k) by {
        let i = k / w;
        assert(i * w <= k < i * w + w && 0 <= i < m) by (nonlinear_arith)
            requires
                i == k / w,
                0 <= k < m * w,
                w >= 1,
        ;
        assert(a.regs()[i] == a.spec_get(i));
        assert(b.regs()[i] == b.spec_get(i));
        lemma_field_bound(a.buf@, a.settings.reg_width, i);
        lemma_field_bound(b.buf@, a.settings.reg_width, i);
        lemma_same_value_bits(a.buf@, b.buf@, i * w, w as nat, k);
    }
    lemma_same_stream(a.buf@, b.buf@);
}

/// What is read back from an estimator's image has the same image, as long as the bits
/// that fill the last byte of a sparse storage's image are too few for one more short word.
pub proof fn law_image_round_trip(h: Hll, bytes: Seq<u8>, back: Hll, again: Seq<u8>)
    requires
        h.wf(),
        h.writable(),
        h.encodes(bytes),
        back.decodes(bytes),
        back.encodes(again),
        h matches Hll::Sparse(s) ==> (8 * s.image_len()) as int / (s.word_bits() as int) == s.buf@.len(),
    ensures
        again == bytes,
{
    let settings = h.spec_settings();
    lemma_header_round_trip(settings, h.spec_type_id(), bytes);
    let read = image_settings(bytes);
    assert(back.spec_settings() == read);
    assert(again[0] == bytes[0] && again[1] == bytes[1] && again[2] == bytes[2]);
    let first = bytes.skip(3);
    let second = again.skip(3);
    match (h, back) {
        (Hll::Empty(_), Hll::Empty(_)) => {},
        (Hll::Explicit(e), Hll::Explicit(explicit_back)) => {
            law_explicit_round_trip(e, first);
            assert(explicit_back.buf@ == e.buf@);
            law_explicit_round_trip(explicit_back, second);
        },
        (Hll::Sparse(s), Hll::Sparse(sparse_back)) => {
            law_sparse_round_trip(s, first);
            lemma_decoded_same_geometry(
                first,
                settings,
                read,
                ((8 * first.len()) as int / (s.word_bits() as int)) as nat,
            );
            assert(sparse_back.buf@ == s.buf@);
            lemma_sparse_one_image(s, sparse_back, first, second);
        },
        (Hll::Dense(d), Hll::Dense(dense_back)) => {
            assert(first =~= d.buf@);
            assert(dense_len(read) == dense_len(settings));
            assert(dense_back.buf@ =~= d.buf@);
            assert(second =~= dense_back.buf@);
        },
        _ => {},
    }
    assert(first == second);
    assert forall|i: int| 0 <= i < bytes.len() implies bytes[i] == again[i] by {
        if i >= 3 {
            assert(bytes[i] == first[i - 3]);
            assert(again[i] == second[i - 3]);
        }
    }
    assert(again =~= bytes);
}

/// An estimator's image can be read back, unless it is a sparse storage's of 512 MiB.
pub proof fn law_image_is_readable(h: Hll, bytes: Seq<u8>)
    requires
        h.wf(),
        h.writable(),
        h.encodes(bytes),
        h is Sparse ==> 8 * h.image_len() <= u32::MAX,
    ensures
        image_readable(bytes),
        image_version(bytes) == 1,
        image_log_2m(bytes) >= 4,
        1 <= image_type(bytes) <= 4,
{
    lemma_header_round_trip(h.spec_settings(), h.spec_type_id(), bytes);
    match h {
        Hll::Explicit(e) => {
            law_explicit_round_trip(e, bytes.skip(3));
        },
        Hll::Dense(d) => {
            assert(bytes.skip(3) =~= d.buf@);
        },
        _ => {},
    }
}

} // verus!
