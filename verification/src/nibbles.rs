//! A nibble path: an owned sequence of 4-bit values (0..=15), optionally
//! terminated by the sentinel 16 that marks a leaf path, together with its
//! Hex-Prefix (HP) compact encoding.

use vstd::prelude::*;

verus! {

/// The one recoverable error of the codec: a compact buffer that is empty or
/// whose leading flag nibble is not one of the four defined values.
#[derive(Debug, Clone, Copy, PartialEq, Eq, Structural)]
pub enum TrieError {
    InvalidData,
}

/// An owned nibble path. Every element is in 0..=16, and 16, if present,
/// stands only at the very end, marking a leaf path (invariant
/// [`valid_nibbles`]).
#[derive(Debug, Clone, PartialEq, Eq)]
pub struct Nibbles {
    hex_data: Vec<u8>,
}

impl View for Nibbles {
    type V = Seq<u8>;

    closed spec fn view(&self) -> Seq<u8> {
        self.hex_data@
    }
}

/// The well-formedness invariant of a nibble path: every element is in
/// 0..=16, and the leaf sentinel 16 occurs only as the last element.
pub open spec fn valid_nibbles(s: Seq<u8>) -> bool {
    forall|i: int|
        0 <= i < s.len() ==> s[i] <= 16 && (s[i] == 16 ==> i == s.len() - 1)
}

/// True when the path carries the trailing leaf sentinel.
pub open spec fn has_leaf_mark(s: Seq<u8>) -> bool {
    s.len() > 0 && s.last() == 16
}

/// The path with the leaf sentinel, if any, removed.
pub open spec fn stripped(s: Seq<u8>) -> Seq<u8> {
    if has_leaf_mark(s) {
        s.drop_last()
    } else {
        s
    }
}

/// The nibble expansion of a byte string: each byte becomes its high nibble
/// followed by its low nibble, in input order.
pub open spec fn expand_bytes(raw: Seq<u8>) -> Seq<u8> {
    Seq::new(
        raw.len() * 2,
        |i: int| if i % 2 == 0 { raw[i / 2] / 16 } else { raw[i / 2] % 16 },
    )
}

/// The nibble path that [`Nibbles::from_bytes`] builds: the expansion of the
/// bytes, with the leaf sentinel appended when the path ends at a leaf.
pub open spec fn from_bytes_spec(raw: Seq<u8>, is_leaf: bool) -> Seq<u8> {
    if is_leaf {
        expand_bytes(raw).push(16)
    } else {
        expand_bytes(raw)
    }
}

/// Packs an even-length run of nibbles two at a time into bytes, high nibble
/// first.
pub open spec fn pack_nibbles(hex: Seq<u8>) -> Seq<u8>
    recommends
        hex.len() % 2 == 0,
        forall|i: int| 0 <= i < hex.len() ==> hex[i] <= 15,
{
    Seq::new(hex.len() / 2, |i: int| (hex[2 * i] * 16 + hex[2 * i + 1]) as u8)
}

/// The flag byte of the HP encoding. Its high nibble is 0 (extension, even),
/// 1 (extension, odd), 2 (leaf, even) or 3 (leaf, odd); for an odd nibble
/// count, the first nibble of the path is folded into its low nibble.
pub open spec fn hp_flag_byte(s: Seq<u8>) -> u8
    recommends
        valid_nibbles(s),
{
    let hex = stripped(s);
    (((if has_leaf_mark(s) {
        0x20int
    } else {
        0x00int
    }) + (if hex.len() % 2 == 1 {
        0x10 + hex[0]
    } else {
        0x00int
    })) as u8)
}

/// The HP encoding of a nibble path: the flag byte, then the remaining
/// nibbles (the folded one excluded) packed two to a byte.
pub open spec fn hp_encode(s: Seq<u8>) -> Seq<u8>
    recommends
        valid_nibbles(s),
        s.len() > 0,
{
    let hex = stripped(s);
    let rest = if hex.len() % 2 == 1 {
        hex.skip(1)
    } else {
        hex
    };
    seq![hp_flag_byte(s)] + pack_nibbles(rest)
}

/// A compact buffer is decodable exactly when it is non-empty and its leading
/// flag nibble is one of the four defined values.
pub open spec fn hp_valid(compact: Seq<u8>) -> bool {
    compact.len() > 0 && compact[0] / 16 <= 3
}

/// The nibble path a decodable compact buffer stands for: the folded nibble
/// (for odd parity), the expansion of the remaining bytes, and the leaf
/// sentinel (for a leaf flag).
pub open spec fn hp_decode(compact: Seq<u8>) -> Seq<u8>
    recommends
        hp_valid(compact),
{
    let flag = compact[0];
    let head = if flag / 16 == 1 || flag / 16 == 3 {
        seq![flag % 16]
    } else {
        Seq::<u8>::empty()
    };
    let tail = if flag / 16 >= 2 {
        seq![16u8]
    } else {
        Seq::<u8>::empty()
    };
    head + expand_bytes(compact.skip(1)) + tail
}

/// A byte splits into its two nibbles and they reassemble into it.
proof fn lemma_byte_nibbles(b: u8)
    ensures
        b / 16 <= 15,
        b % 16 <= 15,
        (b / 16) * 16 + (b % 16) == b,
{
    vstd::arithmetic::div_mod::lemma_fundamental_div_mod(b as int, 16);
}

/// Reassembling a high and a low nibble gives back both.
proof fn lemma_split_byte(h: int, l: int)
    requires
        0 <= h <= 15,
        0 <= l <= 15,
    ensures
        (16 * h + l) / 16 == h,
        (16 * h + l) % 16 == l,
{
    vstd::arithmetic::div_mod::lemma_fundamental_div_mod_converse(16 * h + l, 16, h, l);
}

/// Expanding one more byte appends its two nibbles.
proof fn lemma_expand_snoc(raw: Seq<u8>, b: u8)
    ensures
        expand_bytes(raw.push(b)) == expand_bytes(raw) + seq![b / 16, b % 16],
{
    let left = expand_bytes(raw.push(b));
    let right = expand_bytes(raw) + seq![b / 16, b % 16];
    assert forall|i: int| 0 <= i < left.len() implies left[i] == right[i] by {
        if i < 2 * raw.len() {
            assert(raw.push(b)[i / 2] == raw[i / 2]);
        } else {
            assert(i / 2 == raw.len()) by {
                vstd::arithmetic::div_mod::lemma_fundamental_div_mod_converse(
                    i,
                    2,
                    raw.len() as int,
                    i - 2 * raw.len(),
                );
            }
            assert(raw.push(b)[i / 2] == b);
        }
    }
    assert(left =~= right);
}

/// Every element of a nibble expansion fits in a nibble.
proof fn lemma_expand_bounds(raw: Seq<u8>)
    ensures
        forall|i: int| 0 <= i < expand_bytes(raw).len() ==> #[trigger] expand_bytes(raw)[i] <= 15,
{
    assert forall|i: int| 0 <= i < expand_bytes(raw).len() implies #[trigger] expand_bytes(
        raw,
    )[i] <= 15 by {
        lemma_byte_nibbles(raw[i / 2]);
    }
}

/// In a well-formed path, everything before the sentinel fits in a nibble.
proof fn lemma_stripped_bounds(s: Seq<u8>)
    requires
        valid_nibbles(s),
    ensures
        forall|i: int| 0 <= i < stripped(s).len() ==> #[trigger] stripped(s)[i] <= 15,
{
    assert forall|i: int| 0 <= i < stripped(s).len() implies #[trigger] stripped(s)[i] <= 15 by {
        if has_leaf_mark(s) {
            assert(stripped(s)[i] == s[i]);
        }
        assert(s[i] <= 16);
        assert(s[i] == 16 ==> i == s.len() - 1);
    }
}

/// Expanding a packed run of nibbles gives the run back.
proof fn lemma_expand_of_pack(hex: Seq<u8>)
    requires
        hex.len() % 2 == 0,
        forall|i: int| 0 <= i < hex.len() ==> hex[i] <= 15,
    ensures
        expand_bytes(pack_nibbles(hex)) == hex,
{
    let p = pack_nibbles(hex);
    assert(2 * (hex.len() / 2) == hex.len()) by {
        vstd::arithmetic::div_mod::lemma_fundamental_div_mod(hex.len() as int, 2);
    }
    assert(expand_bytes(p).len() == hex.len());
    assert forall|i: int| 0 <= i < hex.len() implies expand_bytes(p)[i] == hex[i] by {
        let j = i / 2;
        vstd::arithmetic::div_mod::lemma_fundamental_div_mod(i, 2);
        assert(p[j] == (hex[2 * j] * 16 + hex[2 * j + 1]) as u8);
        lemma_split_byte(hex[2 * j] as int, hex[2 * j + 1] as int);
        if i % 2 == 0 {
            assert(2 * j == i);
            assert(expand_bytes(p)[i] == p[j] / 16);
        } else {
            assert(2 * j + 1 == i);
            assert(expand_bytes(p)[i] == p[j] % 16);
        }
    }
    assert(expand_bytes(p) =~= hex);
}

/// Packing the nibble expansion of a byte string gives the bytes back.
proof fn lemma_pack_of_expand(raw: Seq<u8>)
    ensures
        expand_bytes(raw).len() == 2 * raw.len(),
        expand_bytes(raw).len() % 2 == 0,
        pack_nibbles(expand_bytes(raw)) == raw,
{
    let e = expand_bytes(raw);
    assert(e.len() % 2 == 0) by {
        vstd::arithmetic::div_mod::lemma_fundamental_div_mod_converse(
            e.len() as int,
            2,
            raw.len() as int,
            0,
        );
    }
    assert(e.len() / 2 == raw.len()) by {
        vstd::arithmetic::div_mod::lemma_fundamental_div_mod_converse(
            e.len() as int,
            2,
            raw.len() as int,
            0,
        );
    }
    assert forall|i: int| 0 <= i < raw.len() implies pack_nibbles(e)[i] == raw[i] by {
        vstd::arithmetic::div_mod::lemma_fundamental_div_mod_converse(2 * i, 2, i, 0);
        vstd::arithmetic::div_mod::lemma_fundamental_div_mod_converse(2 * i + 1, 2, i, 1);
        assert(e[2 * i] == raw[i] / 16);
        assert(e[2 * i + 1] == raw[i] % 16);
        lemma_byte_nibbles(raw[i]);
    }
    assert(pack_nibbles(e) =~= raw);
}

/// What `from_bytes` builds is a well-formed nibble path whose stripped form
/// is exactly the nibble expansion of the input bytes.
proof fn lemma_from_bytes_spec_valid(raw: Seq<u8>, is_leaf: bool)
    ensures
        valid_nibbles(from_bytes_spec(raw, is_leaf)),
        has_leaf_mark(from_bytes_spec(raw, is_leaf)) == is_leaf,
        stripped(from_bytes_spec(raw, is_leaf)) == expand_bytes(raw),
{
    lemma_expand_bounds(raw);
    let s = from_bytes_spec(raw, is_leaf);
    if is_leaf {
        assert(s.last() == 16);
        assert(stripped(s) =~= expand_bytes(raw));
    }
}

/// How the flag byte of the HP encoding splits back into its two nibbles:
/// the high nibble tells leaf-ness and parity apart, the low nibble holds the
/// folded first nibble of an odd-length path.
proof fn lemma_flag_byte(s: Seq<u8>)
    requires
        valid_nibbles(s),
        s.len() > 0,
    ensures
        ({
            let hex = stripped(s);
            let odd = hex.len() % 2 == 1;
            let f = hp_flag_byte(s);
            &&& f / 16 == (if has_leaf_mark(s) {
                2int
            } else {
                0int
            }) + (if odd {
                1int
            } else {
                0int
            })
            &&& f % 16 == (if odd {
                hex[0] as int
            } else {
                0int
            })
        }),
{
    lemma_stripped_bounds(s);
    let hex = stripped(s);
    let odd = hex.len() % 2 == 1;
    let leaf = has_leaf_mark(s);
    if odd {
        assert(hex[0] <= 15);
        if leaf {
            lemma_split_byte(3, hex[0] as int);
            assert(16 * 3 + hex[0] == 0x30 + hex[0]);
        } else {
            lemma_split_byte(1, hex[0] as int);
        }
    } else {
        if leaf {
            lemma_split_byte(2, 0);
        } else {
            lemma_split_byte(0, 0);
        }
    }
}

/// Law: the HP encoding of a non-empty well-formed nibble path is decodable,
/// decoding it gives the path back, and re-encoding the decoded path gives
/// the identical compact buffer.
pub proof fn lemma_compact_round_trip(s: Seq<u8>)
    requires
        valid_nibbles(s),
        s.len() > 0,
    ensures
        hp_valid(hp_encode(s)),
        hp_decode(hp_encode(s)) == s,
        hp_encode(hp_decode(hp_encode(s))) == hp_encode(s),
{
    lemma_stripped_bounds(s);
    lemma_flag_byte(s);
    let hex = stripped(s);
    let odd = hex.len() % 2 == 1;
    let rest = if odd {
        hex.skip(1)
    } else {
        hex
    };
    let c = hp_encode(s);
    assert(rest.len() % 2 == 0);
    assert forall|i: int| 0 <= i < rest.len() implies rest[i] <= 15 by {
        if odd {
            assert(rest[i] == hex[i + 1]);
        }
    }
    assert(c.skip(1) =~= pack_nibbles(rest));
    lemma_expand_of_pack(rest);
    let d = hp_decode(c);
    if odd {
        assert(seq![hex[0]] + rest =~= hex);
    }
    if has_leaf_mark(s) {
        assert(hex + seq![16u8] =~= s);
    }
    assert(d =~= s);
}

/// Decoding a decodable compact buffer yields a well-formed nibble path.
proof fn lemma_hp_decode_valid(compact: Seq<u8>)
    requires
        hp_valid(compact),
    ensures
        valid_nibbles(hp_decode(compact)),
{
    let flag = compact[0];
    lemma_byte_nibbles(flag);
    lemma_expand_bounds(compact.skip(1));
    let head = if flag / 16 == 1 || flag / 16 == 3 {
        seq![flag % 16]
    } else {
        Seq::<u8>::empty()
    };
    let tail = if flag / 16 >= 2 {
        seq![16u8]
    } else {
        Seq::<u8>::empty()
    };
    let body = expand_bytes(compact.skip(1));
    let d = hp_decode(compact);
    assert forall|i: int| 0 <= i < d.len() implies d[i] <= 16 && (d[i] == 16 ==> i == d.len()
        - 1) by {
        if i < head.len() {
            assert(d[i] == flag % 16);
        } else if i < head.len() + body.len() {
            assert(d[i] == body[i - head.len()]);
        } else {
            assert(d[i] == 16 && i == d.len() - 1);
        }
    }
}

/// Law: expanding a byte string, HP-encoding the path and decoding the
/// buffer gives the path back, and packing its stripped form restores the
/// original bytes together with the leaf flag. (An empty byte string with no
/// leaf flag gives the empty path, which the encoder does not take.)
pub proof fn lemma_bytes_round_trip(raw: Seq<u8>, is_leaf: bool)
    requires
        raw.len() > 0 || is_leaf,
    ensures
        ({
            let n = from_bytes_spec(raw, is_leaf);
            &&& valid_nibbles(n)
            &&& n.len() > 0
            &&& hp_valid(hp_encode(n))
            &&& hp_decode(hp_encode(n)) == n
            &&& stripped(n).len() % 2 == 0
            &&& pack_nibbles(stripped(n)) == raw
            &&& has_leaf_mark(n) == is_leaf
        }),
{
    lemma_from_bytes_spec_valid(raw, is_leaf);
    lemma_pack_of_expand(raw);
    let n = from_bytes_spec(raw, is_leaf);
    lemma_compact_round_trip(n);
}

/// The number of leading positions on which two sequences agree.
pub open spec fn common_prefix_len(a: Seq<u8>, b: Seq<u8>) -> nat
    decreases a.len(),
{
    if a.len() == 0 || b.len() == 0 || a[0] != b[0] {
        0
    } else {
        1 + common_prefix_len(a.skip(1), b.skip(1))
    }
}

/// A run of agreement that ends at a mismatch or at the end of one sequence
/// is exactly the common prefix length.
proof fn lemma_common_prefix_from_agreement(a: Seq<u8>, b: Seq<u8>, k: int)
    requires
        0 <= k <= a.len(),
        k <= b.len(),
        forall|j: int| 0 <= j < k ==> a[j] == b[j],
        k < a.len() && k < b.len() ==> a[k] != b[k],
    ensures
        common_prefix_len(a, b) == k,
    decreases k,
{
    if k == 0 {
    } else {
        assert(a[0] == b[0]);
        let a1 = a.skip(1);
        let b1 = b.skip(1);
        assert forall|j: int| 0 <= j < k - 1 implies a1[j] == b1[j] by {
            assert(a1[j] == a[j + 1] && b1[j] == b[j + 1]);
        }
        if k - 1 < a1.len() && k - 1 < b1.len() {
            assert(a1[k - 1] == a[k] && b1[k - 1] == b[k]);
        }
        lemma_common_prefix_from_agreement(a1, b1, k - 1);
    }
}

/// Law: the common prefix length is symmetric in its two sequences.
pub proof fn lemma_common_prefix_symmetric(a: Seq<u8>, b: Seq<u8>)
    ensures
        common_prefix_len(a, b) == common_prefix_len(b, a),
    decreases a.len(),
{
    if a.len() == 0 || b.len() == 0 || a[0] != b[0] {
    } else {
        lemma_common_prefix_symmetric(a.skip(1), b.skip(1));
    }
}

/// Law: the common prefix length never exceeds either length, both sequences
/// agree on every position below it, and — when both sequences go on — the
/// elements right after it differ.
pub proof fn lemma_common_prefix_properties(a: Seq<u8>, b: Seq<u8>)
    ensures
        common_prefix_len(a, b) <= a.len(),
        common_prefix_len(a, b) <= b.len(),
        forall|j: int| 0 <= j < common_prefix_len(a, b) ==> a[j] == b[j],
        common_prefix_len(a, b) < a.len() && common_prefix_len(a, b) < b.len() ==> a[
            common_prefix_len(a, b) as int
        ] != b[common_prefix_len(a, b) as int],
    decreases a.len(),
{
    if a.len() == 0 || b.len() == 0 || a[0] != b[0] {
    } else {
        let a1 = a.skip(1);
        let b1 = b.skip(1);
        lemma_common_prefix_properties(a1, b1);
        let k = common_prefix_len(a, b);
        assert(k == 1 + common_prefix_len(a1, b1));
        assert forall|j: int| 0 <= j < k implies a[j] == b[j] by {
            if j > 0 {
                assert(a1[j - 1] == a[j] && b1[j - 1] == b[j]);
            }
        }
        if k < a.len() && k < b.len() {
            assert(a1[k - 1] == a[k as int] && b1[k - 1] == b[k as int]);
        }
    }
}

/// Law: slicing a path over its full range copies it, and an empty range
/// yields the empty path.
pub proof fn lemma_slice_boundaries(s: Seq<u8>, i: int)
    requires
        0 <= i <= s.len(),
    ensures
        s.subrange(0, s.len() as int) == s,
        s.subrange(i, i).len() == 0,
{
    assert(s.subrange(0, s.len() as int) =~= s);
}

/// Law: `from_bytes` marks the path as a leaf exactly when asked to.
pub proof fn lemma_from_bytes_leaf_mark(raw: Seq<u8>)
    ensures
        has_leaf_mark(from_bytes_spec(raw, true)),
        !has_leaf_mark(from_bytes_spec(raw, false)),
{
    lemma_from_bytes_spec_valid(raw, true);
    lemma_from_bytes_spec_valid(raw, false);
}

/// Appending keeps a path well-formed as long as nothing follows a leaf
/// sentinel: the left path must not be a leaf unless the right one is empty.
proof fn lemma_valid_concat(a: Seq<u8>, b: Seq<u8>)
    requires
        valid_nibbles(a),
        valid_nibbles(b),
        b.len() > 0 ==> !has_leaf_mark(a),
    ensures
        valid_nibbles(a + b),
{
    let c = a + b;
    assert forall|i: int| 0 <= i < c.len() implies c[i] <= 16 && (c[i] == 16 ==> i == c.len()
        - 1) by {
        if i < a.len() {
            assert(c[i] == a[i]);
            if c[i] == 16 {
                assert(has_leaf_mark(a));
            }
        } else {
            assert(c[i] == b[i - a.len()]);
        }
    }
}

impl Nibbles {
    /// The number of leading positions where this path and `other_partial`
    /// agree, up to the shorter length.
    pub fn common_prefix(&self, other_partial: &Nibbles) -> (count: usize)
        ensures
            count == common_prefix_len(self@, other_partial@),
            count <= self@.len() && count <= other_partial@.len(),
            forall|j: int| 0 <= j < count ==> self@[j] == other_partial@[j],
            count < self@.len() && count < other_partial@.len() ==> self@[count as int]
                != other_partial@[count as int],
    {
        let s = if self.len() < other_partial.len() {
            self.len()
        } else {
            other_partial.len()
        };
        let mut i: usize = 0;
        while i < s
            invariant_except_break
                i <= s,
                s <= self@.len() && s <= other_partial@.len(),
                s == self@.len() || s == other_partial@.len(),
                forall|j: int| 0 <= j < i ==> self@[j] == other_partial@[j],
            ensures
                i <= s,
                s <= self@.len() && s <= other_partial@.len(),
                s == self@.len() || s == other_partial@.len(),
                forall|j: int| 0 <= j < i ==> self@[j] == other_partial@[j],
                i < s ==> self@[i as int] != other_partial@[i as int],
            decreases s - i,
        {
            if self.hex_at(i) != other_partial.hex_at(i) {
                break ;
            }
            i = i + 1;
        }
        proof {
            lemma_common_prefix_from_agreement(self@, other_partial@, i as int);
        }
        i
    }

    /// A new path owning a copy of the elements in `[start, end)`. Bounds
    /// outside the path are a contract violation.
    pub fn slice(&self, start: usize, end: usize) -> (result: Nibbles)
        requires
            start <= end <= self@.len(),
        ensures
            result@ == self@.subrange(start as int, end as int),
    {
        let mut hex_data: Vec<u8> = Vec::new();
        let mut i: usize = start;
        while i < end
            invariant
                start <= i <= end <= self@.len(),
                hex_data@ == self@.subrange(start as int, i as int),
            decreases end - i,
        {
            hex_data.push(self.hex_data[i]);
            proof {
                assert(self@.subrange(start as int, i + 1) =~= self@.subrange(
                    start as int,
                    i as int,
                ).push(self@[i as int]));
            }
            i = i + 1;
        }
        Nibbles::from_hex_unchecked(hex_data)
    }

    /// The suffix of the path from `index` to its end.
    #[inline(always)]
    pub fn offset(&self, index: usize) -> (result: Nibbles)
        requires
            index <= self@.len(),
        ensures
            result@ == self@.skip(index as int),
    {
        self.slice(index, self.hex_data.len())
    }

    /// A new path holding this one followed by `b`; neither input moves.
    pub fn join(&self, b: &Nibbles) -> (result: Nibbles)
        ensures
            result@ == self@ + b@,
            valid_nibbles(self@) && valid_nibbles(b@) && (b@.len() > 0 ==> !has_leaf_mark(self@))
                ==> valid_nibbles(result@),
    {
        let mut joined = self.slice(0, self.hex_data.len());
        proof {
            assert(joined@ =~= self@);
        }
        joined.extend(b);
        joined
    }

    /// Appends a copy of `b`'s elements in place.
    pub fn extend(&mut self, b: &Nibbles)
        ensures
            final(self)@ == old(self)@ + b@,
            valid_nibbles(old(self)@) && valid_nibbles(b@) && (b@.len() > 0 ==> !has_leaf_mark(
                old(self)@,
            )) ==> valid_nibbles(final(self)@),
    {
        let mut i: usize = 0;
        while i < b.hex_data.len()
            invariant
                i <= b@.len(),
                self@ == old(self)@ + b@.take(i as int),
            decreases b@.len() - i,
        {
            self.hex_data.push(b.hex_data[i]);
            proof {
                assert(old(self)@ + b@.take(i + 1) =~= (old(self)@ + b@.take(i as int)).push(
                    b@[i as int],
                ));
            }
            i = i + 1;
        }
        proof {
            assert(old(self)@ + b@.take(b@.len() as int) =~= old(self)@ + b@);
            if valid_nibbles(old(self)@) && valid_nibbles(b@) && (b@.len() > 0 ==> !has_leaf_mark(
                old(self)@,
            )) {
                lemma_valid_concat(old(self)@, b@);
            }
        }
    }

    /// Discards the elements beyond `len`; a `len` at or past the current
    /// length leaves the path as it is.
    pub fn truncate(&mut self, len: usize)
        ensures
            len <= old(self)@.len() ==> final(self)@ == old(self)@.take(len as int),
            len > old(self)@.len() ==> final(self)@ == old(self)@,
    {
        self.hex_data.truncate(len);
    }

    /// Removes and returns the last element, or `None` on an empty path.
    pub fn pop(&mut self) -> (result: Option<u8>)
        ensures
            old(self)@.len() > 0 ==> result == Some(old(self)@.last()) && final(self)@ == old(
                self,
            )@.drop_last(),
            old(self)@.len() == 0 ==> result is None && final(self)@ == old(self)@,
    {
        self.hex_data.pop()
    }

    /// Appends one element. The caller keeps the invariant: the value is in
    /// 0..=16, and 16 goes only onto a path that is not yet a leaf, as its
    /// terminator.
    pub fn push(&mut self, e: u8)
        requires
            e <= 16,
            !has_leaf_mark(old(self)@),
        ensures
            final(self)@ == old(self)@.push(e),
            valid_nibbles(old(self)@) ==> valid_nibbles(final(self)@),
    {
        self.hex_data.push(e);
        proof {
            if valid_nibbles(old(self)@) {
                lemma_valid_concat(old(self)@, seq![e]);
                assert(old(self)@ + seq![e] =~= old(self)@.push(e));
            }
        }
    }

    /// Decodes an HP-encoded compact buffer back into a nibble path. Fails
    /// with `InvalidData` exactly when the buffer is empty or its leading
    /// flag nibble is not one of the four defined values 0..=3.
    pub fn from_compact(compact: Vec<u8>) -> (result: Result<Nibbles, TrieError>)
        ensures
            match result {
                Ok(n) => hp_valid(compact@) && n@ == hp_decode(compact@) && valid_nibbles(n@),
                Err(e) => !hp_valid(compact@) && e == TrieError::InvalidData,
            },
    {
        if compact.len() == 0 {
            return Err(TrieError::InvalidData);
        }
        let flag = compact[0];
        let high = flag / 16;
        if high > 3 {
            return Err(TrieError::InvalidData);
        }
        let mut hex: Vec<u8> = Vec::new();
        if high == 1 || high == 3 {
            hex.push(flag % 16);
        }
        let is_leaf = high >= 2;
        let ghost head = if high == 1 || high == 3 {
            seq![flag % 16]
        } else {
            Seq::<u8>::empty()
        };
        let mut i: usize = 1;
        while i < compact.len()
            invariant
                1 <= i <= compact@.len(),
                flag == compact@[0],
                high == flag / 16,
                head == (if high == 1 || high == 3 {
                    seq![flag % 16]
                } else {
                    Seq::<u8>::empty()
                }),
                hex@ == head + expand_bytes(compact@.subrange(1, i as int)),
            decreases compact@.len() - i,
        {
            let b = compact[i];
            hex.push(b / 16);
            hex.push(b % 16);
            proof {
                assert(compact@.subrange(1, i + 1) =~= compact@.subrange(1, i as int).push(b));
                lemma_expand_snoc(compact@.subrange(1, i as int), b);
                assert(hex@ =~= head + expand_bytes(compact@.subrange(1, i + 1)));
            }
            i = i + 1;
        }
        if is_leaf {
            hex.push(16);
        }
        proof {
            assert(compact@.subrange(1, compact@.len() as int) =~= compact@.skip(1));
            assert(hex@ =~= hp_decode(compact@));
            lemma_hp_decode_valid(compact@);
        }
        Ok(Nibbles { hex_data: hex })
    }

    /// Packs the nibbles in positions `start..end` (an even count, all in
    /// nibble range) two to a byte, high nibble first.
    fn pack_pairs(&self, start: usize, end: usize) -> (packed: Vec<u8>)
        requires
            start <= end <= self@.len(),
            (end - start) % 2 == 0,
            forall|k: int| start <= k < end ==> self@[k] <= 15,
        ensures
            packed@ == pack_nibbles(self@.subrange(start as int, end as int)),
    {
        let ghost rem = self@.subrange(start as int, end as int);
        let pairs = (end - start) / 2;
        proof {
            vstd::arithmetic::div_mod::lemma_fundamental_div_mod((end - start) as int, 2);
            assert(rem.len() == end - start);
            vstd::arithmetic::div_mod::lemma_fundamental_div_mod_converse(
                rem.len() as int,
                2,
                pairs as int,
                0,
            );
        }
        let mut packed: Vec<u8> = Vec::new();
        let mut p: usize = 0;
        while p < pairs
            invariant
                p <= pairs,
                start + 2 * pairs == end,
                end <= self@.len(),
                rem == self@.subrange(start as int, end as int),
                rem.len() / 2 == pairs,
                forall|k: int| start <= k < end ==> self@[k] <= 15,
                packed@ == pack_nibbles(rem).take(p as int),
            decreases pairs - p,
        {
            let a = self.hex_data[start + 2 * p];
            let b = self.hex_data[start + 2 * p + 1];
            proof {
                assert(rem[2 * (p as int)] == self@[start + 2 * p]);
                assert(rem[2 * (p as int) + 1] == self@[start + 2 * p + 1]);
            }
            packed.push(a * 16 + b);
            proof {
                assert(pack_nibbles(rem)[p as int] == (a * 16 + b) as u8);
                assert(pack_nibbles(rem).take(p + 1) =~= pack_nibbles(rem).take(p as int).push(
                    (a * 16 + b) as u8,
                ));
            }
            p = p + 1;
        }
        proof {
            assert(pack_nibbles(rem).take(pairs as int) =~= pack_nibbles(rem));
        }
        packed
    }

    /// HP-encodes the path: a flag byte carrying leaf-ness, parity and (for an
    /// odd nibble count) the folded first nibble, then the remaining nibbles
    /// packed two to a byte. Encoding an empty path is a contract violation.
    pub fn encode_compact(&self) -> (compact: Vec<u8>)
        requires
            self@.len() > 0,
            valid_nibbles(self@),
        ensures
            compact@ == hp_encode(self@),
            hp_valid(compact@),
    {
        proof {
            lemma_stripped_bounds(self@);
        }
        let is_leaf = self.is_leaf();
        let content_len = if is_leaf {
            self.hex_data.len() - 1
        } else {
            self.hex_data.len()
        };
        let ghost hex = stripped(self@);
        proof {
            assert(hex =~= self@.subrange(0, content_len as int));
        }
        let mut compact: Vec<u8> = Vec::new();
        let start: usize;
        let flag: u8;
        if content_len % 2 == 1 {
            proof {
                assert(hex[0] == self@[0] && hex[0] <= 15);
            }
            flag = 0x10 + self.hex_data[0] + (if is_leaf {
                0x20
            } else {
                0x00
            });
            start = 1;
        } else {
            flag = if is_leaf {
                0x20
            } else {
                0x00
            };
            start = 0;
        }
        compact.push(flag);
        proof {
            assert forall|k: int| start <= k < content_len implies self@[k] <= 15 by {
                assert(hex[k] == self@[k]);
            }
        }
        let mut rest = self.pack_pairs(start, content_len);
        compact.append(&mut rest);
        proof {
            assert((if hex.len() % 2 == 1 {
                hex.skip(1)
            } else {
                hex
            }) =~= self@.subrange(start as int, content_len as int));
            assert(compact@ =~= hp_encode(self@));
            lemma_compact_round_trip(self@);
        }
        compact
    }

    /// Packs the path back into the raw bytes that `from_bytes` was given,
    /// alongside the leaf flag. A path whose stripped nibble count is odd was
    /// not produced by `from_bytes`; calling this on one is a contract
    /// violation, as is calling it on an empty path.
    pub fn encode_raw(&self) -> (result: (Vec<u8>, bool))
        requires
            self@.len() > 0,
            valid_nibbles(self@),
            stripped(self@).len() % 2 == 0,
        ensures
            result.0@ == pack_nibbles(stripped(self@)),
            result.1 == has_leaf_mark(self@),
    {
        proof {
            lemma_stripped_bounds(self@);
        }
        let is_leaf = self.is_leaf();
        let content_len = if is_leaf {
            self.hex_data.len() - 1
        } else {
            self.hex_data.len()
        };
        let ghost hex = stripped(self@);
        proof {
            assert(hex =~= self@.subrange(0, content_len as int));
            assert forall|k: int| 0 <= k < content_len implies self@[k] <= 15 by {
                assert(hex[k] == self@[k]);
            }
        }
        let raw = self.pack_pairs(0, content_len);
        (raw, is_leaf)
    }

    /// Expands every input byte into its high nibble then its low nibble,
    /// preserving order, and appends the leaf sentinel when `is_leaf` holds.
    pub fn from_bytes(raw: &[u8], is_leaf: bool) -> (result: Nibbles)
        ensures
            result@ == from_bytes_spec(raw@, is_leaf),
            valid_nibbles(result@),
    {
        let mut hex_data: Vec<u8> = Vec::new();
        let mut i: usize = 0;
        while i < raw.len()
            invariant
                i <= raw@.len(),
                hex_data@ == expand_bytes(raw@.take(i as int)),
            decreases raw@.len() - i,
        {
            let b = raw[i];
            hex_data.push(b / 16);
            hex_data.push(b % 16);
            proof {
                assert(raw@.take(i + 1) =~= raw@.take(i as int).push(b));
                lemma_expand_snoc(raw@.take(i as int), b);
                assert(hex_data@ =~= expand_bytes(raw@.take(i + 1)));
            }
            i = i + 1;
        }
        proof {
            assert(raw@.take(raw@.len() as int) =~= raw@);
        }
        if is_leaf {
            hex_data.push(16);
        }
        proof {
            lemma_from_bytes_spec_valid(raw@, is_leaf);
        }
        Nibbles { hex_data }
    }

    /// Wraps an already-valid nibble buffer without validation; the caller is
    /// responsible for the invariant.
    pub(crate) fn from_hex_unchecked(hex_data: Vec<u8>) -> (result: Nibbles)
        ensures
            result@ == hex_data@,
    {
        Nibbles { hex_data }
    }

    /// The number of nibbles, the leaf sentinel included.
    #[inline(always)]
    pub fn len(&self) -> (result: usize)
        ensures
            result == self@.len(),
    {
        self.hex_data.len()
    }

    #[inline(always)]
    pub fn is_empty(&self) -> (result: bool)
        ensures
            result == (self@.len() == 0),
    {
        self.len() == 0
    }

    /// The nibble at position `i`.
    #[inline(always)]
    pub fn hex_at(&self, i: usize) -> (result: usize)
        requires
            i < self@.len(),
        ensures
            result == self@[i as int],
    {
        self.hex_data[i] as usize
    }

    /// A read-only view of the full underlying nibble buffer.
    #[inline(always)]
    pub fn get_data(&self) -> (result: &[u8])
        ensures
            result@ == self@,
    {
        self.hex_data.as_slice()
    }

    /// Whether this path ends at a leaf, signalled by the trailing sentinel.
    /// Querying an empty path is a contract violation.
    pub fn is_leaf(&self) -> (result: bool)
        requires
            self@.len() > 0,
        ensures
            result == has_leaf_mark(self@),
    {
        self.hex_data[self.hex_data.len() - 1] == 16
    }
}

} // verus!

