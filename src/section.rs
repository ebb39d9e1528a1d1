use vstd::arithmetic::power2::{lemma2_to64, lemma_pow2_unfold, pow2};
use vstd::arithmetic::div_mod::lemma_div_non_zero;
use crate::error::Error;
use crate::nbt::{last_named, value_tag, Value};
use crate::tag::Tag;
use vstd::prelude::*;

verus! {

/// Number of halvings (rounding up) that bring `p` down to 1: the ceiling of
/// the base-2 logarithm of `p`, with 0 for `p <= 1`.
pub open spec fn ceil_log2(p: nat) -> nat
    decreases p,
{
    if p <= 1 {
        0
    } else {
        1 + ceil_log2(((p + 1) / 2) as nat)
    }
}

/// A count of at most `2^k` needs at most `k` halvings.
pub proof fn lemma_ceil_log2_bound(n: nat, k: nat)
    requires
        n <= pow2(k),
    ensures
        ceil_log2(n) <= k,
    decreases k,
{
    if n > 1 {
        if k == 0 {
            assert(pow2(0) == 1) by {
                lemma2_to64();
            }
        } else {
            lemma_pow2_unfold(k);
            lemma_ceil_log2_bound(((n + 1) / 2) as nat, (k - 1) as nat);
        }
    }
}

/// Bits per palette index for a palette of `p` entries: at least four, and
/// enough to address every entry.
pub open spec fn bits_for_palette(p: nat) -> nat {
    if ceil_log2(p) < 4 {
        4
    } else {
        ceil_log2(p)
    }
}

/// The low `bits` bits set.
pub open spec fn low_mask(bits: u64) -> u64 {
    if bits >= 64 {
        u64::MAX
    } else {
        ((1u64 << bits) - 1) as u64
    }
}

/// Computes the bits per index of a section whose palette holds `palette_len`
/// entries.
pub fn palette_bits(palette_len: usize) -> (bits: u64)
    ensures
        bits as nat == bits_for_palette(palette_len as nat),
        4 <= bits <= 64,
{
    proof {
        lemma2_to64();
        lemma_ceil_log2_bound(palette_len as nat, 64);
    }
    let mut n: usize = palette_len;
    let mut b: u64 = 0;
    while n > 1
        invariant
            b as nat + ceil_log2(n as nat) == ceil_log2(palette_len as nat),
            b <= 64,
            n > 1 ==> b + ceil_log2(n as nat) <= 64,
        decreases n,
    {
        n = n - (n / 2);
        b = b + 1;
    }
    if b < 4 {
        4
    } else {
        b
    }
}

/// The `i`-th index of an aligned array: each long holds `64 / bits` whole
/// indices from its low bits up, and no index crosses into the next long.
pub open spec fn aligned_index(longs: Seq<u64>, bits: u64, i: nat) -> Option<u64> {
    let per_long = (64u64 / bits) as nat;
    let long_idx = i / per_long;
    let slot = (i % per_long) as u64;
    if long_idx < longs.len() {
        Some((longs[long_idx as int] >> ((slot * bits) as u64)) & low_mask(bits))
    } else {
        None
    }
}

/// The `i`-th index of a packed array: the longs form one stream of bits, low
/// bits first, and an index may continue in the next long.
pub open spec fn packed_index(longs: Seq<u64>, bits: u64, i: nat) -> Option<u64> {
    let start = i * bits;
    let long_idx = start / 64;
    let off = (start % 64) as u64;
    if off + bits <= 64 {
        if long_idx < longs.len() {
            Some((longs[long_idx as int] >> off) & low_mask(bits))
        } else {
            None
        }
    } else if long_idx + 1 < longs.len() {
        Some(
            ((longs[long_idx as int] >> off) | (longs[long_idx + 1] << ((64 - off) as u64)))
                & low_mask(bits),
        )
    } else {
        None
    }
}

/// Computes the mask of the low `bits` bits.
pub fn mask_for(bits: u64) -> (m: u64)
    ensures
        m == low_mask(bits),
{
    if bits >= 64 {
        u64::MAX
    } else {
        assert((1u64 << bits) >= 1) by (bit_vector)
            requires
                bits < 64,
        ;
        (1u64 << bits) - 1
    }
}

/// Reads the `i`-th index of an array in the aligned layout.
pub fn get_aligned(longs: &[u64], bits: u64, i: usize) -> (r: Option<u64>)
    requires
        4 <= bits <= 64,
    ensures
        r == aligned_index(longs@, bits, i as nat),
{
    let per_long = 64 / bits;
    proof {
        lemma_div_non_zero(64, bits as int);
    }
    let long_idx = i / (per_long as usize);
    let slot = (i % (per_long as usize)) as u64;
    assert(slot * bits < 64) by (nonlinear_arith)
        requires
            slot < per_long,
            per_long == 64u64 / bits,
            bits >= 4,
    ;
    if long_idx < longs.len() {
        Some((longs[long_idx] >> (slot * bits)) & mask_for(bits))
    } else {
        None
    }
}

/// Reads the `i`-th index of an array in the packed layout.
pub fn get_packed(longs: &[u64], bits: u64, i: usize) -> (r: Option<u64>)
    requires
        4 <= bits <= 64,
        i * bits <= u64::MAX,
    ensures
        r == packed_index(longs@, bits, i as nat),
{
    let start = (i as u64) * bits;
    let long_idx = start / 64;
    let off = start % 64;
    let n = longs.len() as u64;
    if off + bits <= 64 {
        if long_idx < n {
            Some((longs[long_idx as usize] >> off) & mask_for(bits))
        } else {
            None
        }
    } else if long_idx + 1 < n {
        let lo = longs[long_idx as usize];
        let hi = longs[(long_idx + 1) as usize];
        Some(((lo >> off) | (hi << (64 - off))) & mask_for(bits))
    } else {
        None
    }
}

/// The first data version whose block states use the aligned layout.
pub const ALIGNED_SINCE_DATA_VERSION: i32 = 2529;

/// How the indices of a block-state array are laid out in its longs.
#[derive(Clone, Copy, Debug, PartialEq, Eq, Structural)]
pub enum Packing {
    /// No index crosses a long boundary.
    Aligned,
    /// Indices form one contiguous stream of bits.
    Packed,
}

/// The layout that a chunk of the given data version uses.
pub open spec fn packing_spec(data_version: Option<i32>) -> Packing {
    match data_version {
        Some(v) => if v >= ALIGNED_SINCE_DATA_VERSION {
            Packing::Aligned
        } else {
            Packing::Packed
        },
        None => Packing::Aligned,
    }
}

/// Chooses the layout of block states from a chunk's data version; chunks
/// without one use the aligned layout.
pub fn packing_for(data_version: Option<i32>) -> (p: Packing)
    ensures
        p == packing_spec(data_version),
{
    match data_version {
        Some(v) => if v >= ALIGNED_SINCE_DATA_VERSION {
            Packing::Aligned
        } else {
            Packing::Packed
        },
        None => Packing::Aligned,
    }
}

/// A block of the palette: its name and its properties, in stored order.
#[derive(Clone, Debug)]
pub struct Block {
    pub name: String,
    pub properties: Vec<(String, String)>,
}

/// A sixteen-high slab of a chunk.
#[derive(Clone, Debug)]
pub struct Section {
    pub palette: Vec<Block>,
    pub block_states: Vec<u64>,
}

/// Position of a block within a section, `y` major, then `z`, then `x`.
pub open spec fn block_position(x: nat, y: nat, z: nat) -> nat {
    y * 256 + z * 16 + x
}

/// The index stored for position `i`, before it is held against the
/// palette. A section without block states holds index 0 everywhere.
pub open spec fn stored_index(states: Seq<u64>, palette_len: nat, packing: Packing, i: nat) -> Option<u64> {
    if states.len() == 0 {
        Some(0)
    } else {
        let bits = bits_for_palette(palette_len) as u64;
        match packing {
            Packing::Aligned => aligned_index(states, bits, i),
            Packing::Packed => packed_index(states, bits, i),
        }
    }
}

/// What reading the palette index at position `i` gives.
pub open spec fn block_index_spec(states: Seq<u64>, palette_len: nat, packing: Packing, i: nat) -> Result<usize, Error> {
    match stored_index(states, palette_len, packing, i) {
        Some(v) => if (v as nat) < palette_len {
            Ok(v as usize)
        } else {
            Err(Error::PaletteIndexOutOfRange)
        },
        None => Err(Error::InvalidLength),
    }
}

impl Section {
    /// The palette index of the block at `(x, y, z)`, with `y` local to the
    /// section. Fails when the block states are too short for the position,
    /// or when the stored index lies beyond the palette.
    pub fn block_index(&self, packing: Packing, x: usize, y: usize, z: usize) -> (r: Result<usize, Error>)
        requires
            x < 16,
            y < 16,
            z < 16,
        ensures
            r == block_index_spec(
                self.block_states@,
                self.palette@.len(),
                packing,
                block_position(x as nat, y as nat, z as nat),
            ),
            r matches Ok(k) ==> k < self.palette@.len(),
    {
        let i = y * 256 + z * 16 + x;
        let raw = if self.block_states.len() == 0 {
            Some(0u64)
        } else {
            let bits = palette_bits(self.palette.len());
            match packing {
                Packing::Aligned => get_aligned(self.block_states.as_slice(), bits, i),
                Packing::Packed => {
                    assert(i * bits <= 4096 * 64) by (nonlinear_arith)
                        requires
                            i < 4096,
                            bits <= 64,
                    ;
                    get_packed(self.block_states.as_slice(), bits, i)
                },
            }
        };
        match raw {
            Some(v) => if v < self.palette.len() as u64 {
                Ok(v as usize)
            } else {
                Err(Error::PaletteIndexOutOfRange)
            },
            None => Err(Error::InvalidLength),
        }
    }

    /// The block at `(x, y, z)`, with `y` local to the section.
    pub fn block(&self, packing: Packing, x: usize, y: usize, z: usize) -> (r: Result<&Block, Error>)
        requires
            x < 16,
            y < 16,
            z < 16,
        ensures
            match block_index_spec(
                self.block_states@,
                self.palette@.len(),
                packing,
                block_position(x as nat, y as nat, z as nat),
            ) {
                Ok(k) => r == Ok::<&Block, Error>(&self.palette@[k as int]),
                Err(e) => r == Err::<&Block, Error>(e),
            },
    {
        match self.block_index(packing, x, y, z) {
            Ok(k) => Ok(&self.palette[k]),
            Err(e) => Err(e),
        }
    }
}

/// Every index that a section hands out lies within its palette.
pub proof fn lemma_index_within_palette(states: Seq<u64>, palette_len: nat, packing: Packing, i: nat)
    ensures
        block_index_spec(states, palette_len, packing, i) matches Ok(k) ==> (k as nat) < palette_len,
{
}

/// The properties of a palette entry: every value of the compound must be a
/// string.
pub open spec fn property_strings(ps: Seq<(String, Value)>) -> bool {
    forall|i: int| 0 <= i < ps.len() ==> #[trigger] ps[i].1 is String
}

/// What a palette entry's properties read as, when the entry has any.
pub open spec fn properties_of(es: Seq<(String, Value)>) -> Result<Seq<(String, Value)>, Error> {
    match last_named(es, "Properties"@) {
        None => Ok(Seq::empty()),
        Some(j) => match es[j].1 {
            Value::Compound(ps) => if property_strings(ps@) {
                Ok(ps@)
            } else {
                Err(Error::TypeMismatch { expected: Tag::String, found: Tag::Compound })
            },
            other => Err(Error::TypeMismatch { expected: Tag::Compound, found: value_tag(other) }),
        },
    }
}

/// The properties as the block keeps them: the same names and texts, in
/// stored order.
pub open spec fn same_properties(b: Seq<(String, String)>, ps: Seq<(String, Value)>) -> bool {
    &&& b.len() == ps.len()
    &&& forall|i: int|
        0 <= i < b.len() ==> #[trigger] b[i].0@ == ps[i].0@ && ps[i].1 == Value::String(b[i].1)
}

impl Block {
    /// Reads a palette entry: a compound with a string `Name` and an
    /// optional compound `Properties` of strings. Other entries are ignored.
    pub fn from_value(v: &Value) -> (r: Result<Block, Error>)
        ensures
            match *v {
                Value::Compound(es) => match last_named(es@, "Name"@) {
                    None => r matches Err(e) && e is MissingField,
                    Some(i) => match es@[i].1 {
                        Value::String(n) => match properties_of(es@) {
                            Ok(ps) => r matches Ok(b) && b.name@ == n@ && same_properties(
                                b.properties@,
                                ps,
                            ),
                            Err(e) => r == Err::<Block, Error>(e),
                        },
                        other => r == Err::<Block, Error>(
                            Error::TypeMismatch { expected: Tag::String, found: value_tag(other) },
                        ),
                    },
                },
                other => r == Err::<Block, Error>(
                    Error::TypeMismatch { expected: Tag::Compound, found: value_tag(other) },
                ),
            },
    {
        let es = match v {
            Value::Compound(es) => es,
            _ => {
                return Err(
                    Error::TypeMismatch { expected: Tag::Compound, found: crate::coerce::tag_of(v) },
                );
            },
        };
        let name = match v.get("Name") {
            None => {
                return Err(Error::MissingField("Name".to_owned()));
            },
            Some(Value::String(n)) => n.clone(),
            Some(other) => {
                return Err(
                    Error::TypeMismatch {
                        expected: Tag::String,
                        found: crate::coerce::tag_of(other),
                    },
                );
            },
        };
        let mut properties: Vec<(String, String)> = Vec::new();
        match v.get("Properties") {
            None => {},
            Some(Value::Compound(ps)) => {
                let mut i: usize = 0;
                while i < ps.len()
                    invariant
                        i <= ps@.len(),
                        *v == Value::Compound(*es),
                        last_named(es@, "Name"@) matches Some(k) && es@[k].1 == Value::String(name),
                        last_named(es@, "Properties"@) matches Some(k) && es@[k].1
                            == Value::Compound(*ps),
                        forall|j: int| 0 <= j < i ==> #[trigger] ps@[j].1 is String,
                        properties@.len() == i,
                        forall|j: int|
                            0 <= j < i ==> #[trigger] properties@[j].0@ == ps@[j].0@ && ps@[j].1
                                == Value::String(properties@[j].1),
                    decreases ps@.len() - i,
                {
                    match &ps[i].1 {
                        Value::String(t) => {
                            properties.push((ps[i].0.clone(), t.clone()));
                        },
                        _ => {
                            return Err(
                                Error::TypeMismatch { expected: Tag::String, found: Tag::Compound },
                            );
                        },
                    }
                    i = i + 1;
                }
            },
            Some(other) => {
                return Err(
                    Error::TypeMismatch {
                        expected: Tag::Compound,
                        found: crate::coerce::tag_of(other),
                    },
                );
            },
        }
        Ok(Block { name, properties })
    }
}

} // verus!
