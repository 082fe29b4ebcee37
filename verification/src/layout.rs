//! Where the sections of a serialized forest lie.

use vstd::prelude::*;

use crate::bytes::{count_at, read_slice_at, read_usize_at, slice_at};
use crate::error::{DeserializationError, InvalidValue};
use crate::felt::{Felt, Word};
use crate::forest::{inserted, AdviceMap, AdviceModel, MAX_NODES};
use crate::operation::{felt_at, read_felt_at};
use crate::wire::FLAG_HASHLESS;

verus! {

/// Offsets and sizes of the sections of a serialized forest.
#[derive(Clone, Copy, PartialEq, Eq, Structural, Debug)]
pub struct ForestLayout {
    pub hashless: bool,
    pub node_count: usize,
    pub internal_count: usize,
    pub external_count: usize,
    pub roots_count: usize,
    pub roots_offset: usize,
    pub data_len: usize,
    pub data_offset: usize,
    pub entry_offset: usize,
    pub external_offset: usize,
    pub hash_offset: usize,
    pub advice_offset: usize,
}

// MODEL
// ================================================================================================

pub open spec fn refused<T>(e: InvalidValue) -> Result<T, DeserializationError> {
    Err(DeserializationError::InvalidValue(e))
}

/// How many items of `size` bytes a reader with the given budget may allocate at offset `at`.
pub open spec fn available(limit: Option<usize>, at: nat, size: nat) -> nat {
    match limit {
        None => usize::MAX as nat,
        Some(l) => if l < at {
            0
        } else {
            ((l - at) / size as int) as nat
        },
    }
}

/// The offset behind `count` items of `size` bytes from offset `at` on.
pub open spec fn section_end(bytes: Seq<u8>, at: nat, count: nat, size: nat) -> Result<
    nat,
    DeserializationError,
> {
    if at + count * size > usize::MAX {
        refused(InvalidValue::OffsetOverflow)
    } else if at + count * size > bytes.len() {
        Err(DeserializationError::UnexpectedEOF)
    } else {
        Ok(at + count * size)
    }
}

/// A count that the reader may allocate, and the offset behind it.
pub open spec fn bounded_count_at(
    bytes: Seq<u8>,
    limit: Option<usize>,
    at: nat,
    size: nat,
) -> Result<(nat, nat), DeserializationError> {
    match count_at(bytes, at) {
        Err(e) => Err(e),
        Ok((n, len)) => if n > available(limit, at + len, size) {
            refused(
                InvalidValue::TooManyElements {
                    requested: n as usize,
                    available: available(limit, at + len, size) as usize,
                },
            )
        } else {
            Ok((n, at + len))
        },
    }
}

/// Whether a payload with a valid header is hashless. Hashless payloads may be refused.
pub open spec fn header_at(bytes: Seq<u8>, allow_hashless: bool) -> Result<
    bool,
    DeserializationError,
> {
    match slice_at(bytes, 0, 4) {
        Err(e) => Err(e),
        Ok(magic) => if magic != seq![0x4du8, 0x41u8, 0x53u8, 0x54u8] {
            refused(InvalidValue::InvalidMagic)
        } else {
            match slice_at(bytes, 4, 1) {
                Err(e) => Err(e),
                Ok(flags) => if flags[0] != 0 && flags[0] != FLAG_HASHLESS {
                    refused(InvalidValue::UnknownFlags { flags: flags[0] })
                } else {
                    match slice_at(bytes, 5, 3) {
                        Err(e) => Err(e),
                        Ok(v) => if v[0] != 0 || v[1] != 0 || v[2] != 4 {
                            refused(
                                InvalidValue::UnsupportedVersion {
                                    major: v[0],
                                    minor: v[1],
                                    patch: v[2],
                                },
                            )
                        } else if flags[0] == FLAG_HASHLESS && !allow_hashless {
                            refused(InvalidValue::HashlessNotAllowed)
                        } else {
                            Ok(flags[0] == FLAG_HASHLESS)
                        },
                    }
                },
            }
        },
    }
}

/// The numbers of internal and external nodes, and the offset behind them.
pub open spec fn node_counts_at(bytes: Seq<u8>, limit: Option<usize>) -> Result<
    (nat, nat, nat),
    DeserializationError,
> {
    match count_at(bytes, 8) {
        Err(e) => Err(e),
        Ok((internal, len)) => match count_at(bytes, 8 + len) {
            Err(e) => Err(e),
            Ok((external, len2)) => {
                let end = 8 + len + len2;
                if internal + external > usize::MAX {
                    refused(InvalidValue::NodeCountOverflow)
                } else if internal + external > MAX_NODES {
                    refused(
                        InvalidValue::NodeCountExceedsMaximum {
                            count: (internal + external) as usize,
                            maximum: MAX_NODES,
                        },
                    )
                } else if internal + external > available(limit, end, 8) {
                    refused(
                        InvalidValue::NodeCountExceedsBound {
                            count: (internal + external) as usize,
                            bound: available(limit, end, 8) as usize,
                        },
                    )
                } else {
                    Ok((internal, external, end))
                }
            },
        },
    }
}

/// The layout of a payload whose roots end at `end`.
pub open spec fn sections_at(
    bytes: Seq<u8>,
    limit: Option<usize>,
    hashless: bool,
    internal: nat,
    external: nat,
    roots: nat,
    roots_offset: nat,
    end: nat,
) -> Result<ForestLayout, DeserializationError> {
    match bounded_count_at(bytes, limit, end, 1) {
        Err(e) => Err(e),
        Ok((data_len, data_offset)) => match section_end(bytes, data_offset, data_len, 1) {
            Err(e) => Err(e),
            Ok(entry_offset) => match section_end(bytes, entry_offset, internal + external, 8) {
                Err(e) => Err(e),
                Ok(external_offset) => match section_end(bytes, external_offset, external, 32) {
                    Err(e) => Err(e),
                    Ok(hash_offset) => match section_end(
                        bytes,
                        hash_offset,
                        if hashless {
                            0
                        } else {
                            internal
                        },
                        32,
                    ) {
                        Err(e) => Err(e),
                        Ok(advice_offset) => Ok(
                            ForestLayout {
                                hashless,
                                node_count: (internal + external) as usize,
                                internal_count: internal as usize,
                                external_count: external as usize,
                                roots_count: roots as usize,
                                roots_offset: roots_offset as usize,
                                data_len: data_len as usize,
                                data_offset: data_offset as usize,
                                entry_offset: entry_offset as usize,
                                external_offset: external_offset as usize,
                                hash_offset: hash_offset as usize,
                                advice_offset: advice_offset as usize,
                            },
                        ),
                    },
                },
            },
        },
    }
}

/// The layout of a payload.
pub open spec fn layout_at(bytes: Seq<u8>, limit: Option<usize>, allow_hashless: bool) -> Result<
    ForestLayout,
    DeserializationError,
> {
    match header_at(bytes, allow_hashless) {
        Err(e) => Err(e),
        Ok(hashless) => match node_counts_at(bytes, limit) {
            Err(e) => Err(e),
            Ok((internal, external, at)) => match bounded_count_at(bytes, limit, at, 4) {
                Err(e) => Err(e),
                Ok((roots, roots_offset)) => match section_end(bytes, roots_offset, roots, 4) {
                    Err(e) => Err(e),
                    Ok(end) => sections_at(
                        bytes,
                        limit,
                        hashless,
                        internal,
                        external,
                        roots,
                        roots_offset,
                        end,
                    ),
                },
            },
        },
    }
}

/// The sections lie one behind the other inside the payload.
pub open spec fn layout_inside(layout: ForestLayout, len: nat) -> bool {
    &&& layout.node_count == layout.internal_count + layout.external_count
    &&& layout.node_count <= MAX_NODES
    &&& layout.roots_offset + 4 * layout.roots_count <= len
    &&& layout.data_offset + layout.data_len == layout.entry_offset
    &&& layout.entry_offset + 8 * layout.node_count == layout.external_offset
    &&& layout.external_offset + 32 * layout.external_count == layout.hash_offset
    &&& !layout.hashless ==> layout.hash_offset + 32 * layout.internal_count
        == layout.advice_offset
    &&& layout.hash_offset <= layout.advice_offset <= len
}

/// The word at offset `at`.
pub open spec fn word_at(bytes: Seq<u8>, at: nat) -> Result<Word, DeserializationError> {
    match felt_at(bytes, at) {
        Err(e) => Err(e),
        Ok(w0) => match felt_at(bytes, at + 8) {
            Err(e) => Err(e),
            Ok(w1) => match felt_at(bytes, at + 16) {
                Err(e) => Err(e),
                Ok(w2) => match felt_at(bytes, at + 24) {
                    Err(e) => Err(e),
                    Ok(w3) => Ok(Word { w0, w1, w2, w3 }),
                },
            },
        },
    }
}

/// The `n` field elements from offset `at` on.
pub open spec fn felts_at(bytes: Seq<u8>, at: nat, n: nat) -> Result<
    Seq<Felt>,
    DeserializationError,
>
    decreases n,
{
    if n == 0 {
        Ok(Seq::empty())
    } else {
        match felts_at(bytes, at, (n - 1) as nat) {
            Err(e) => Err(e),
            Ok(felts) => match felt_at(bytes, (at + 8 * (n - 1)) as nat) {
                Err(e) => Err(e),
                Ok(felt) => Ok(felts.push(felt)),
            },
        }
    }
}

/// The entry of an advice map at offset `at`, and the offset behind it.
pub open spec fn advice_entry_at(bytes: Seq<u8>, limit: Option<usize>, at: nat) -> Result<
    (Word, Seq<Felt>, nat),
    DeserializationError,
> {
    match word_at(bytes, at) {
        Err(e) => Err(e),
        Ok(key) => match bounded_count_at(bytes, limit, at + 32, 8) {
            Err(e) => Err(e),
            Ok((m, start)) => match felts_at(bytes, start, m) {
                Err(e) => Err(e),
                Ok(values) => Ok((key, values, start + 8 * m)),
            },
        },
    }
}

/// The map of the `n` entries from offset `at` on, and the offset behind them. A later entry
/// replaces an earlier one with the same key.
pub open spec fn advice_entries_at(
    bytes: Seq<u8>,
    limit: Option<usize>,
    at: nat,
    n: nat,
) -> Result<(AdviceModel, nat), DeserializationError>
    decreases n,
{
    if n == 0 {
        Ok((Seq::empty(), at))
    } else {
        match advice_entries_at(bytes, limit, at, (n - 1) as nat) {
            Err(e) => Err(e),
            Ok((entries, end)) => match advice_entry_at(bytes, limit, end) {
                Err(e) => Err(e),
                Ok((key, values, next)) => Ok((inserted(entries, key, values), next)),
            },
        }
    }
}

/// The advice map at offset `at`, and the offset behind it.
pub open spec fn advice_at(bytes: Seq<u8>, limit: Option<usize>, at: nat) -> Result<
    (AdviceModel, nat),
    DeserializationError,
> {
    match bounded_count_at(bytes, limit, at, 33) {
        Err(e) => Err(e),
        Ok((n, start)) => advice_entries_at(bytes, limit, start, n),
    }
}

// READERS
// ================================================================================================

/// How many items of `size` bytes a reader with the given budget may allocate.
pub fn max_alloc(limit: Option<usize>, at: usize, size: usize) -> (n: usize)
    requires
        size > 0,
    ensures
        n == available(limit, at as nat, size as nat),
{
    match limit {
        None => usize::MAX,
        Some(l) => if l < at {
            0
        } else {
            (l - at) / size
        },
    }
}

fn skip_section(bytes: &[u8], offset: &mut usize, count: usize, size: usize) -> (res: Result<
    (),
    DeserializationError,
>)
    ensures
        match section_end(bytes@, *old(offset) as nat, count as nat, size as nat) {
            Ok(end) => res is Ok && *final(offset) == end && end <= bytes@.len(),
            Err(e) => res == Err::<(), DeserializationError>(e),
        },
{
    match count.checked_mul(size) {
        None => Err(DeserializationError::InvalidValue(InvalidValue::OffsetOverflow)),
        Some(len) => match read_slice_at(bytes, offset, len) {
            Ok(_) => Ok(()),
            Err(e) => Err(e),
        },
    }
}

fn read_bounded_count(bytes: &[u8], limit: Option<usize>, offset: &mut usize, size: usize) -> (res:
    Result<usize, DeserializationError>)
    requires
        size > 0,
    ensures
        match bounded_count_at(bytes@, limit, *old(offset) as nat, size as nat) {
            Ok((n, end)) => res == Ok::<usize, DeserializationError>(n as usize) && n <= usize::MAX
                && *final(offset) == end && end <= bytes@.len(),
            Err(e) => res == Err::<usize, DeserializationError>(e),
        },
{
    let n: usize = match read_usize_at(bytes, offset) {
        Ok(n) => n,
        Err(e) => {
            return Err(e);
        },
    };
    let bound: usize = max_alloc(limit, *offset, size);
    if n > bound {
        return Err(
            DeserializationError::InvalidValue(
                InvalidValue::TooManyElements { requested: n, available: bound },
            ),
        );
    }
    Ok(n)
}

/// Reads the header and moves the offset behind it.
fn read_header(bytes: &[u8], allow_hashless: bool) -> (res: Result<bool, DeserializationError>)
    ensures
        res == header_at(bytes@, allow_hashless),
{
    let mut offset: usize = 0;
    let magic = match read_slice_at(bytes, &mut offset, 4) {
        Ok(s) => s,
        Err(e) => {
            return Err(e);
        },
    };
    if magic[0] != 0x4d || magic[1] != 0x41 || magic[2] != 0x53 || magic[3] != 0x54 {
        assert(magic@ != seq![0x4du8, 0x41u8, 0x53u8, 0x54u8]) by {
            if magic@ == seq![0x4du8, 0x41u8, 0x53u8, 0x54u8] {
                assert(magic@[0] == 0x4d && magic@[1] == 0x41 && magic@[2] == 0x53 && magic@[3]
                    == 0x54);
            }
        }
        return Err(DeserializationError::InvalidValue(InvalidValue::InvalidMagic));
    }
    assert(magic@ =~= seq![0x4du8, 0x41u8, 0x53u8, 0x54u8]);
    let flags: u8 = match read_slice_at(bytes, &mut offset, 1) {
        Ok(s) => s[0],
        Err(e) => {
            return Err(e);
        },
    };
    if flags != 0 && flags != FLAG_HASHLESS {
        return Err(DeserializationError::InvalidValue(InvalidValue::UnknownFlags { flags }));
    }
    let version = match read_slice_at(bytes, &mut offset, 3) {
        Ok(s) => s,
        Err(e) => {
            return Err(e);
        },
    };
    if version[0] != 0 || version[1] != 0 || version[2] != 4 {
        return Err(
            DeserializationError::InvalidValue(
                InvalidValue::UnsupportedVersion {
                    major: version[0],
                    minor: version[1],
                    patch: version[2],
                },
            ),
        );
    }
    if flags == FLAG_HASHLESS && !allow_hashless {
        return Err(DeserializationError::InvalidValue(InvalidValue::HashlessNotAllowed));
    }
    Ok(flags == FLAG_HASHLESS)
}

fn read_node_counts(bytes: &[u8], limit: Option<usize>) -> (res: Result<
    (usize, usize, usize),
    DeserializationError,
>)
    requires
        bytes@.len() >= 8,
    ensures
        match node_counts_at(bytes@, limit) {
            Ok((internal, external, end)) => res == Ok::<
                (usize, usize, usize),
                DeserializationError,
            >((internal as usize, external as usize, end as usize)) && internal + external
                <= MAX_NODES && end <= bytes@.len(),
            Err(e) => res == Err::<(usize, usize, usize), DeserializationError>(e),
        },
{
    let mut offset: usize = 8;
    let internal: usize = match read_usize_at(bytes, &mut offset) {
        Ok(n) => n,
        Err(e) => {
            return Err(e);
        },
    };
    let external: usize = match read_usize_at(bytes, &mut offset) {
        Ok(n) => n,
        Err(e) => {
            return Err(e);
        },
    };
    match internal.checked_add(external) {
        None => Err(DeserializationError::InvalidValue(InvalidValue::NodeCountOverflow)),
        Some(count) => {
            let bound: usize = max_alloc(limit, offset, 8);
            if count > MAX_NODES {
                Err(
                    DeserializationError::InvalidValue(
                        InvalidValue::NodeCountExceedsMaximum { count, maximum: MAX_NODES },
                    ),
                )
            } else if count > bound {
                Err(
                    DeserializationError::InvalidValue(
                        InvalidValue::NodeCountExceedsBound { count, bound },
                    ),
                )
            } else {
                Ok((internal, external, offset))
            }
        },
    }
}

/// Reads the header and finds the sections of a payload.
///
/// Refuses a header that is not that of a forest, a hashless payload unless it is allowed, counts
/// beyond what a forest or the reader may hold, and sections that end behind the last byte.
pub fn read_header_and_scan_layout(
    bytes: &[u8],
    limit: Option<usize>,
    allow_hashless: bool,
) -> (res: Result<ForestLayout, DeserializationError>)
    ensures
        res == layout_at(bytes@, limit, allow_hashless),
        res is Ok ==> layout_inside(res->Ok_0, bytes@.len()),
        res is Ok && res->Ok_0.hashless ==> allow_hashless,
{
    let hashless: bool = match read_header(bytes, allow_hashless) {
        Ok(h) => h,
        Err(e) => {
            return Err(e);
        },
    };
    let (internal, external, at): (usize, usize, usize) = match read_node_counts(bytes, limit) {
        Ok(counts) => counts,
        Err(e) => {
            return Err(e);
        },
    };
    let mut offset: usize = at;
    let roots_count: usize = match read_bounded_count(bytes, limit, &mut offset, 4) {
        Ok(n) => n,
        Err(e) => {
            return Err(e);
        },
    };
    let roots_offset: usize = offset;
    if let Err(e) = skip_section(bytes, &mut offset, roots_count, 4) {
        return Err(e);
    }
    let data_len: usize = match read_bounded_count(bytes, limit, &mut offset, 1) {
        Ok(n) => n,
        Err(e) => {
            return Err(e);
        },
    };
    let data_offset: usize = offset;
    if let Err(e) = skip_section(bytes, &mut offset, data_len, 1) {
        return Err(e);
    }
    let entry_offset: usize = offset;
    if let Err(e) = skip_section(bytes, &mut offset, internal + external, 8) {
        return Err(e);
    }
    let external_offset: usize = offset;
    if let Err(e) = skip_section(bytes, &mut offset, external, 32) {
        return Err(e);
    }
    let hash_offset: usize = offset;
    let hashes: usize = if hashless {
        0
    } else {
        internal
    };
    if let Err(e) = skip_section(bytes, &mut offset, hashes, 32) {
        return Err(e);
    }
    Ok(
        ForestLayout {
            hashless,
            node_count: internal + external,
            internal_count: internal,
            external_count: external,
            roots_count,
            roots_offset,
            data_len,
            data_offset,
            entry_offset,
            external_offset,
            hash_offset,
            advice_offset: offset,
        },
    )
}

/// Reads a word and moves the offset behind it.
pub fn read_word_at(bytes: &[u8], offset: &mut usize) -> (res: Result<Word, DeserializationError>)
    requires
        *old(offset) <= bytes@.len(),
    ensures
        match word_at(bytes@, *old(offset) as nat) {
            Ok(word) => res == Ok::<Word, DeserializationError>(word) && *final(offset) == *old(
                offset,
            ) + 32 && *final(offset) <= bytes@.len() && word.wf(),
            Err(e) => res == Err::<Word, DeserializationError>(e),
        },
{
    let w0 = match read_felt_at(bytes, offset) {
        Ok(f) => f,
        Err(e) => {
            return Err(e);
        },
    };
    let w1 = match read_felt_at(bytes, offset) {
        Ok(f) => f,
        Err(e) => {
            return Err(e);
        },
    };
    let w2 = match read_felt_at(bytes, offset) {
        Ok(f) => f,
        Err(e) => {
            return Err(e);
        },
    };
    let w3 = match read_felt_at(bytes, offset) {
        Ok(f) => f,
        Err(e) => {
            return Err(e);
        },
    };
    Ok(Word { w0, w1, w2, w3 })
}

pub proof fn lemma_felts_error(bytes: Seq<u8>, at: nat, k: nat, n: nat)
    requires
        k <= n,
        felts_at(bytes, at, k) is Err,
    ensures
        felts_at(bytes, at, n) == felts_at(bytes, at, k),
    decreases n - k,
{
    if k < n {
        lemma_felts_error(bytes, at, k, (n - 1) as nat);
    }
}

fn read_felts(bytes: &[u8], offset: &mut usize, n: usize) -> (res: Result<
    Vec<Felt>,
    DeserializationError,
>)
    requires
        *old(offset) <= bytes@.len(),
    ensures
        match felts_at(bytes@, *old(offset) as nat, n as nat) {
            Ok(felts) => res is Ok && res->Ok_0@ == felts && *final(offset) == *old(offset) + 8 * n
                && *final(offset) <= bytes@.len() && (forall|j: int|
                0 <= j < felts.len() ==> (#[trigger] felts[j]).wf()),
            Err(e) => res == Err::<Vec<Felt>, DeserializationError>(e),
        },
{
    let ghost start = *offset as nat;
    let mut felts: Vec<Felt> = Vec::new();
    let mut i: usize = 0;
    while i < n
        invariant
            i <= n,
            start == *old(offset),
            *offset <= bytes@.len(),
            *offset == start + 8 * i,
            felts_at(bytes@, start, i as nat) == Ok::<Seq<Felt>, DeserializationError>(felts@),
            forall|j: int| 0 <= j < felts@.len() ==> (#[trigger] felts@[j]).wf(),
        decreases n - i,
    {
        match read_felt_at(bytes, offset) {
            Ok(felt) => felts.push(felt),
            Err(e) => {
                proof {
                    lemma_felts_error(bytes@, start, (i + 1) as nat, n as nat);
                }
                return Err(e);
            },
        }
        i += 1;
    }
    Ok(felts)
}

pub proof fn lemma_advice_error(bytes: Seq<u8>, limit: Option<usize>, at: nat, k: nat, n: nat)
    requires
        k <= n,
        advice_entries_at(bytes, limit, at, k) is Err,
    ensures
        advice_entries_at(bytes, limit, at, n) == advice_entries_at(bytes, limit, at, k),
    decreases n - k,
{
    if k < n {
        lemma_advice_error(bytes, limit, at, k, (n - 1) as nat);
    }
}

fn read_advice_entry(bytes: &[u8], limit: Option<usize>, offset: &mut usize) -> (res: Result<
    (Word, Vec<Felt>),
    DeserializationError,
>)
    requires
        *old(offset) <= bytes@.len(),
    ensures
        match advice_entry_at(bytes@, limit, *old(offset) as nat) {
            Ok((key, values, next)) => res is Ok && res->Ok_0.0 == key && res->Ok_0.1@ == values
                && *final(offset) == next && next <= bytes@.len() && key.wf() && (forall|j: int|
                0 <= j < values.len() ==> (#[trigger] values[j]).wf()),
            Err(e) => res == Err::<(Word, Vec<Felt>), DeserializationError>(e),
        },
{
    let key = match read_word_at(bytes, offset) {
        Ok(w) => w,
        Err(e) => {
            return Err(e);
        },
    };
    let m: usize = match read_bounded_count(bytes, limit, offset, 8) {
        Ok(m) => m,
        Err(e) => {
            return Err(e);
        },
    };
    match read_felts(bytes, offset, m) {
        Ok(values) => Ok((key, values)),
        Err(e) => Err(e),
    }
}

/// Reads an advice map and moves the offset behind it.
pub fn read_advice_map(bytes: &[u8], limit: Option<usize>, offset: &mut usize) -> (res: Result<
    AdviceMap,
    DeserializationError,
>)
    requires
        *old(offset) <= bytes@.len(),
    ensures
        match advice_at(bytes@, limit, *old(offset) as nat) {
            Ok((entries, end)) => res is Ok && res->Ok_0@ == entries && res->Ok_0.wf()
                && *final(offset) == end && end <= bytes@.len(),
            Err(e) => res == Err::<AdviceMap, DeserializationError>(e),
        },
{
    let ghost at = *offset as nat;
    let n: usize = match read_bounded_count(bytes, limit, offset, 33) {
        Ok(n) => n,
        Err(e) => {
            return Err(e);
        },
    };
    let ghost start = *offset as nat;
    let mut map = AdviceMap::new();
    let mut i: usize = 0;
    while i < n
        invariant
            i <= n,
            at == *old(offset),
            bounded_count_at(bytes@, limit, at, 33) == Ok::<(nat, nat), DeserializationError>(
                (n as nat, start),
            ),
            *offset <= bytes@.len(),
            map.wf(),
            advice_entries_at(bytes@, limit, start, i as nat) == Ok::<
                (AdviceModel, nat),
                DeserializationError,
            >((map@, *offset as nat)),
        decreases n - i,
    {
        match read_advice_entry(bytes, limit, offset) {
            Ok((key, values)) => map.insert(key, values),
            Err(e) => {
                proof {
                    lemma_advice_error(bytes@, limit, start, (i + 1) as nat, n as nat);
                }
                return Err(e);
            },
        }
        i += 1;
    }
    Ok(map)
}

/// A count is accepted only if as many items of its size fit behind it in what may be read.
pub proof fn law_counts_fit_what_may_be_read(bytes: Seq<u8>, limit: usize, at: nat, size: nat)
    requires
        size > 0,
        bounded_count_at(bytes, Some(limit), at, size) is Ok,
    ensures
        ({
            let (n, next) = bounded_count_at(bytes, Some(limit), at, size)->Ok_0;
            n > 0 ==> next + n * size <= limit
        }),
{
    let (n, next) = bounded_count_at(bytes, Some(limit), at, size)->Ok_0;
    if n > 0 {
        let room = limit - next;
        assert(room >= 0);
        assert(n <= room / size as int);
        vstd::arithmetic::div_mod::lemma_fundamental_div_mod(room, size as int);
        let q = room / size as int;
        assert(n * size <= q * size) by (nonlinear_arith)
            requires
                n <= q,
                size > 0,
        ;
        assert(size * q == q * size) by (nonlinear_arith);
    }
}

} // verus!
